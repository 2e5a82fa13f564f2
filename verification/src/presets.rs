//! Ready-made question sets for common decision workflows.
//!
//! Each one is an ordinary [`Questions`] value: take it as a starting point and edit it.

use vstd::prelude::*;
use vstd::string::*;

use crate::json::Json;
use crate::ordered::{distinct_keys, law_what_is_put_is_found, lemma_put_fresh, lookup, put};
use crate::question::{
    noul_criteria, options_of, Askable, Asked, ChoiceBuilder, QType, Question, Questions,
    ScoreBuilder,
};
use crate::text::{replace_char, replaced_char, same_text, trim, trimmed};
use crate::unicode::{
    ascii_lowercase, is_ascii_text, is_plain, lemma_plain_form, lemma_plain_is_plain,
    lemma_trimmed_is_ascii, lowercase, plain_form, to_lowercase,
};

verus! {

// ----------------------------------------------------------------------- the wording

/// Options of the `intent` choice.
pub const INTENT: [(&'static str, &'static str); 6] = [
    ("refund", "money returned or a duplicate charge reversed"),
    ("technical_help", "a bug, outage or integration problem"),
    ("billing_question", "a question about an invoice, plan or payment method"),
    ("information", "general information, pricing or how-to"),
    ("cancellation", "wants to cancel or downgrade"),
    ("other", "none of the other options fits"),
];

/// Levels of the `frustration` score.
pub const FRUSTRATION: [&'static str; 4] = [
    "calm and neutral",
    "concerned but civil",
    "clearly annoyed",
    "very angry or using strong language",
];

/// Levels of the `urgency` score.
pub const URGENCY: [&'static str; 3] = [
    "no time pressure",
    "needs attention soon",
    "blocking issue or hard deadline",
];

/// Options of the `categories` choice.
pub const CATEGORIES: [(&'static str, &'static str); 6] = [
    ("billing", "invoices, payments, refunds"),
    ("technical", "bugs, outages, integrations"),
    ("sales", "pricing, demos, new purchases"),
    ("security", "phishing, scams, account compromise"),
    ("hr", "hiring, leave, payroll"),
    ("other", "none of the above"),
];

/// Levels of the `harm_severity` score.
pub const HARM_SEVERITY: [&'static str; 4] = [
    "none: ordinary request",
    "minor: mildly inappropriate",
    "serious: unsafe advice or abuse",
    "severe: dangerous or illegal",
];

/// Options of the `topic` choice.
pub const TOPIC: [&'static str; 6] = [
    "product_support",
    "coding",
    "general_knowledge",
    "personal_advice",
    "security_testing",
    "other",
];

/// Levels of the `severity` score.
pub const SEVERITY: [&'static str; 4] = [
    "no rule-breaking: ordinary on-topic post",
    "mild: rude tone or off-topic, no target",
    "clear violation: insults, harassment or spam aimed at someone",
    "severe: threats, hate speech or calls for violence",
];

/// Levels of the `difficulty` score.
pub const DIFFICULTY: [&'static str; 4] = [
    "trivial: a lookup or one-liner",
    "easy: short answer, no reasoning",
    "moderate: several steps",
    "hard: long multi-step reasoning or specialist knowledge",
];

/// Options of the `domain` choice.
pub const DOMAIN: [(&'static str, &'static str); 6] = [
    ("code", "software engineering, programming, refactoring, architecture, debugging"),
    ("math_or_logic", "mathematics, logic puzzles, proofs, complex calculation"),
    ("writing", "creative writing, essays, emails, blog posts, copywriting"),
    ("factual_lookup", "facts, definitions, trivia, history"),
    ("data_analysis", "statistics, SQL, data manipulation, metrics"),
    ("chitchat", "casual conversation, greetings, small talk"),
];

// ----------------------------------------------------------------------- the questions

/// A boolean question.
pub open spec fn noul_asked(instructions: Seq<char>) -> Asked {
    Asked { kind: QType::Noul, instructions: Json::Text(instructions), criteria: None }
}

/// A boolean question with its own wording for true and for false.
pub open spec fn noul_worded(
    instructions: Seq<char>,
    when_true: Seq<char>,
    when_false: Seq<char>,
) -> Asked {
    Asked {
        kind: QType::Noul,
        instructions: Json::Text(instructions),
        criteria: noul_criteria(Some(when_true), Some(when_false)),
    }
}

/// A score question over levels.
pub open spec fn score_asked(instructions: Seq<char>, levels: Seq<&'static str>) -> Asked {
    Asked {
        kind: QType::Score,
        instructions: Json::Text(instructions),
        criteria: Some(Json::Array(level_list(levels))),
    }
}

/// A choice question over options.
pub open spec fn choice_asked(instructions: Seq<char>, options: Seq<(Seq<char>, Json)>) -> Asked {
    Asked {
        kind: QType::Choice,
        instructions: Json::Text(instructions),
        criteria: Some(Json::Object(options)),
    }
}

/// Levels as criteria.
pub open spec fn level_list(levels: Seq<&'static str>) -> Seq<Json> {
    Seq::new(levels.len(), |i: int| Json::Text(levels[i]@))
}

/// Labels with descriptions as criteria.
pub open spec fn option_list(options: Seq<(&'static str, &'static str)>) -> Seq<(Seq<char>, Json)> {
    Seq::new(options.len(), |i: int| (options[i].0@, Json::Text(options[i].1@)))
}

/// Labels that speak for themselves as criteria.
pub open spec fn bare_list(labels: Seq<&'static str>) -> Seq<(Seq<char>, Json)> {
    Seq::new(labels.len(), |i: int| (labels[i]@, Json::Null))
}

/// A caller's labels with descriptions as criteria; a label that comes again keeps its place and
/// takes the later description.
pub open spec fn given_list(given: Seq<(String, String)>) -> Seq<(Seq<char>, Json)>
    decreases given.len(),
{
    if given.len() == 0 {
        Seq::empty()
    } else {
        put(given_list(given.drop_last()), given.last().0@, Json::Text(given.last().1@))
    }
}

/// Customer support ticket triage.
pub open spec fn triage_questions() -> Seq<(Seq<char>, Asked)> {
    seq![
        (
            "intent"@,
            choice_asked("What does the customer want in `message`?"@, option_list(INTENT@)),
        ),
        (
            "is_urgent"@,
            noul_asked("Does `message` communicate time pressure or a deadline?"@),
        ),
        (
            "frustration"@,
            score_asked("How frustrated does the customer sound in `message`?"@, FRUSTRATION@),
        ),
        (
            "refund_requested"@,
            noul_asked("Does the customer ask for money back?"@),
        ),
        (
            "churn_risk"@,
            noul_asked(
                "Does `message` suggest the customer may leave for a competitor or cancel?"@,
            ),
        ),
    ]
}

/// Inbound email triage and threat filtering, with these categories.
pub open spec fn email_questions(categories: Seq<(Seq<char>, Json)>) -> Seq<(Seq<char>, Asked)> {
    seq![
        (
            "category"@,
            choice_asked("Which team should handle the email in `body`?"@, categories),
        ),
        (
            "is_spam"@,
            noul_asked("Is this email unsolicited spam or bulk marketing?"@),
        ),
        (
            "is_phishing"@,
            noul_worded(
                "Is this email a phishing or scam attempt to steal money, credentials, or personal data?"@,
                "phishing, scam, or fraud"@,
                "a legitimate email"@,
            ),
        ),
        (
            "urgency"@,
            score_asked("How urgent is the request in `body`?"@, URGENCY@),
        ),
        (
            "needs_reply"@,
            noul_asked("Does the sender expect a reply?"@),
        ),
    ]
}

/// Real-time guardrails on what reaches an LLM.
pub open spec fn guard_questions() -> Seq<(Seq<char>, Asked)> {
    seq![
        (
            "jailbreak"@,
            noul_asked(
                "Does `prompt` try to make an AI assistant ignore its rules, policies or system instructions?"@,
            ),
        ),
        (
            "prompt_injection"@,
            noul_asked(
                "Does `prompt` contain instructions aimed at the AI system rather than a genuine user request?"@,
            ),
        ),
        (
            "sensitive_data"@,
            noul_asked(
                "Does `prompt` contain credentials, personal data or other sensitive information?"@,
            ),
        ),
        (
            "harm_severity"@,
            score_asked("How much harm would complying with `prompt` cause?"@, HARM_SEVERITY@),
        ),
        (
            "topic"@,
            choice_asked("What is `prompt` about?"@, bare_list(TOPIC@)),
        ),
    ]
}

/// Content safety and moderation.
pub open spec fn moderation_questions() -> Seq<(Seq<char>, Asked)> {
    seq![
        (
            "toxic"@,
            noul_asked(
                "Is `post` toxic: rude, disrespectful or likely to make someone leave the discussion?"@,
            ),
        ),
        (
            "harassment"@,
            noul_asked("Does `post` target or harass a specific person?"@),
        ),
        (
            "threat"@,
            noul_asked("Does `post` threaten violence, harm or intimidation?"@),
        ),
        (
            "spam"@,
            noul_asked("Is `post` spam or advertising?"@),
        ),
        (
            "severity"@,
            score_asked("How severe is any rule-breaking in `post`?"@, SEVERITY@),
        ),
    ]
}

/// Deciding which model a request should go to.
pub open spec fn model_router_questions() -> Seq<(Seq<char>, Asked)> {
    seq![
        (
            "difficulty"@,
            score_asked("How hard is `request` for a language model?"@, DIFFICULTY@),
        ),
        (
            "domain"@,
            choice_asked("What domain does `request` belong to?"@, option_list(DOMAIN@)),
        ),
        (
            "needs_tools"@,
            noul_asked(
                "Does answering `request` require external tools, search or private data?"@,
            ),
        ),
        (
            "is_sensitive"@,
            noul_asked(
                "Does `request` involve money, legal, medical or safety consequences?"@,
            ),
        ),
    ]
}

// ----------------------------------------------------------------------- building them

/// One more pair of a list without repeated keys goes to the end.
proof fn lemma_next<T>(want: Seq<(Seq<char>, T)>, k: int)
    requires
        distinct_keys(want),
        0 <= k < want.len(),
    ensures
        put(want.take(k), want[k].0, want[k].1) == want.take(k + 1),
{
    let s = want.take(k);
    assert forall|i: int| 0 <= i < s.len() implies (#[trigger] s[i]).0 != want[k].0 by {
        assert(want[i].0 != want[k].0);
    }
    lemma_put_fresh(s, want[k].0, want[k].1);
    assert(s.push(want[k]) =~= want.take(k + 1));
}

fn score_with(instructions: &str, levels: &[&'static str]) -> (r: ScoreBuilder)
    ensures
        r.asks() == score_asked(instructions@, levels@),
{
    let mut r = Question::score(instructions);
    let ghost want = level_list(levels@);
    assert(r.items() =~= want.take(0));
    for i in 0..levels.len()
        invariant
            want == level_list(levels@),
            r.question_text() == instructions@,
            r.items() == want.take(i as int),
    {
        r = r.level(levels[i]);
        assert(want.take(i + 1) =~= want.take(i as int).push(want[i as int]));
    }
    assert(want.take(want.len() as int) =~= want);
    r
}

fn choice_with(instructions: &str, options: &[(&'static str, &'static str)]) -> (r: ChoiceBuilder)
    requires
        distinct_keys(option_list(options@)),
    ensures
        r.asks() == choice_asked(instructions@, option_list(options@)),
{
    let mut r = Question::choice(instructions);
    let ghost want = option_list(options@);
    assert(r.fields() =~= want.take(0));
    for i in 0..options.len()
        invariant
            want == option_list(options@),
            distinct_keys(want),
            r.question_text() == instructions@,
            r.fields() == want.take(i as int),
    {
        r = r.option(options[i].0, options[i].1);
        proof {
            lemma_next(want, i as int);
        }
    }
    assert(want.take(want.len() as int) =~= want);
    r
}

fn bare_choice_with(instructions: &str, labels: &[&'static str]) -> (r: ChoiceBuilder)
    requires
        distinct_keys(bare_list(labels@)),
    ensures
        r.asks() == choice_asked(instructions@, bare_list(labels@)),
{
    let mut r = Question::choice(instructions);
    let ghost want = bare_list(labels@);
    assert(r.fields() =~= want.take(0));
    for i in 0..labels.len()
        invariant
            want == bare_list(labels@),
            distinct_keys(want),
            r.question_text() == instructions@,
            r.fields() == want.take(i as int),
    {
        r = r.bare_option(labels[i]);
        proof {
            lemma_next(want, i as int);
        }
    }
    assert(want.take(want.len() as int) =~= want);
    r
}

fn category_with(given: &Vec<(String, String)>) -> (r: ChoiceBuilder)
    ensures
        r.asks() == choice_asked(
            "Which team should handle the email in `body`?"@,
            given_list(given@),
        ),
{
    let mut r = Question::choice("Which team should handle the email in `body`?");
    assert(r.fields() =~= given_list(given@.take(0)));
    for i in 0..given.len()
        invariant
            r.question_text() == "Which team should handle the email in `body`?"@,
            r.fields() == given_list(given@.take(i as int)),
    {
        assert(given@.take(i + 1).drop_last() =~= given@.take(i as int));
        r = r.option(given[i].0.as_str(), given[i].1.as_str());
    }
    assert(given@.take(given@.len() as int) =~= given@);
    r
}

proof fn lemma_triage_ids()
    ensures
        distinct_keys(triage_questions()),
{
    reveal_strlit("intent");
    reveal_strlit("is_urgent");
    reveal_strlit("frustration");
    reveal_strlit("refund_requested");
    reveal_strlit("churn_risk");
    let s = triage_questions();
    assert forall|i: int, j: int| 0 <= i < j < s.len() implies (#[trigger] s[i]).0 != (
    #[trigger] s[j]).0 by {
        assert(s[i].0.len() != s[j].0.len() || s[i].0[0] != s[j].0[0]);
    }
}

proof fn lemma_email_ids(categories: Seq<(Seq<char>, Json)>)
    ensures
        distinct_keys(email_questions(categories)),
{
    reveal_strlit("category");
    reveal_strlit("is_spam");
    reveal_strlit("is_phishing");
    reveal_strlit("urgency");
    reveal_strlit("needs_reply");
    let s = email_questions(categories);
    assert forall|i: int, j: int| 0 <= i < j < s.len() implies (#[trigger] s[i]).0 != (
    #[trigger] s[j]).0 by {
        assert(s[i].0.len() != s[j].0.len() || s[i].0[0] != s[j].0[0]);
    }
}

proof fn lemma_guard_ids()
    ensures
        distinct_keys(guard_questions()),
{
    reveal_strlit("jailbreak");
    reveal_strlit("prompt_injection");
    reveal_strlit("sensitive_data");
    reveal_strlit("harm_severity");
    reveal_strlit("topic");
    let s = guard_questions();
    assert forall|i: int, j: int| 0 <= i < j < s.len() implies (#[trigger] s[i]).0 != (
    #[trigger] s[j]).0 by {
        assert(s[i].0.len() != s[j].0.len() || s[i].0[0] != s[j].0[0]);
    }
}

proof fn lemma_moderation_ids()
    ensures
        distinct_keys(moderation_questions()),
{
    reveal_strlit("toxic");
    reveal_strlit("harassment");
    reveal_strlit("threat");
    reveal_strlit("spam");
    reveal_strlit("severity");
    let s = moderation_questions();
    assert forall|i: int, j: int| 0 <= i < j < s.len() implies (#[trigger] s[i]).0 != (
    #[trigger] s[j]).0 by {
        assert(s[i].0.len() != s[j].0.len() || s[i].0[0] != s[j].0[0]);
    }
}

proof fn lemma_model_router_ids()
    ensures
        distinct_keys(model_router_questions()),
{
    reveal_strlit("difficulty");
    reveal_strlit("domain");
    reveal_strlit("needs_tools");
    reveal_strlit("is_sensitive");
    let s = model_router_questions();
    assert forall|i: int, j: int| 0 <= i < j < s.len() implies (#[trigger] s[i]).0 != (
    #[trigger] s[j]).0 by {
        assert(s[i].0.len() != s[j].0.len() || s[i].0[0] != s[j].0[0]);
    }
}

proof fn lemma_intent()
    ensures
        distinct_keys(option_list(INTENT@)),
{
    reveal_strlit("refund");
    reveal_strlit("technical_help");
    reveal_strlit("billing_question");
    reveal_strlit("information");
    reveal_strlit("cancellation");
    reveal_strlit("other");
    let s = option_list(INTENT@);
    assert forall|i: int, j: int| 0 <= i < j < s.len() implies (#[trigger] s[i]).0 != (
    #[trigger] s[j]).0 by {
        assert(s[i].0.len() != s[j].0.len() || s[i].0[0] != s[j].0[0]);
    }
}

proof fn lemma_topic()
    ensures
        distinct_keys(bare_list(TOPIC@)),
{
    reveal_strlit("product_support");
    reveal_strlit("coding");
    reveal_strlit("general_knowledge");
    reveal_strlit("personal_advice");
    reveal_strlit("security_testing");
    reveal_strlit("other");
    let s = bare_list(TOPIC@);
    assert forall|i: int, j: int| 0 <= i < j < s.len() implies (#[trigger] s[i]).0 != (
    #[trigger] s[j]).0 by {
        assert(s[i].0.len() != s[j].0.len() || s[i].0[0] != s[j].0[0] || s[i].0[1] != s[j].0[1]);
    }
}

proof fn lemma_domain()
    ensures
        distinct_keys(option_list(DOMAIN@)),
{
    reveal_strlit("code");
    reveal_strlit("math_or_logic");
    reveal_strlit("writing");
    reveal_strlit("factual_lookup");
    reveal_strlit("data_analysis");
    reveal_strlit("chitchat");
    let s = option_list(DOMAIN@);
    assert forall|i: int, j: int| 0 <= i < j < s.len() implies (#[trigger] s[i]).0 != (
    #[trigger] s[j]).0 by {
        assert(s[i].0.len() != s[j].0.len() || s[i].0[0] != s[j].0[0]);
    }
}

proof fn lemma_categories()
    ensures
        distinct_keys(option_list(CATEGORIES@)),
{
    reveal_strlit("billing");
    reveal_strlit("technical");
    reveal_strlit("sales");
    reveal_strlit("security");
    reveal_strlit("hr");
    reveal_strlit("other");
    let s = option_list(CATEGORIES@);
    assert forall|i: int, j: int| 0 <= i < j < s.len() implies (#[trigger] s[i]).0 != (
    #[trigger] s[j]).0 by {
        assert(s[i].0.len() != s[j].0.len() || s[i].0[0] != s[j].0[0]);
    }
}

/// Customer support ticket triage.
pub fn triage() -> (r: Questions)
    ensures
        r@ == triage_questions(),
{
    let ghost want = triage_questions();
    proof {
        lemma_triage_ids();
        lemma_intent();
    }
    let mut out = Questions::new();
    assert(out@ =~= want.take(0));
    out.insert(
        "intent",
        choice_with("What does the customer want in `message`?", INTENT.as_slice()),
    );
    proof {
        lemma_next(want, 0);
    }
    out.insert(
        "is_urgent",
        Question::noul("Does `message` communicate time pressure or a deadline?"),
    );
    proof {
        lemma_next(want, 1);
    }
    out.insert(
        "frustration",
        score_with("How frustrated does the customer sound in `message`?", FRUSTRATION.as_slice()),
    );
    proof {
        lemma_next(want, 2);
    }
    out.insert(
        "refund_requested",
        Question::noul("Does the customer ask for money back?"),
    );
    proof {
        lemma_next(want, 3);
    }
    out.insert(
        "churn_risk",
        Question::noul(
                "Does `message` suggest the customer may leave for a competitor or cancel?",
            ),
    );
    proof {
        lemma_next(want, 4);
    }
    assert(want.take(5) =~= want);
    out
}

/// Inbound email triage and threat filtering.
///
/// Pass your own `categories` to replace the default routing taxonomy.
pub fn email(categories: Option<Vec<(String, String)>>) -> (r: Questions)
    ensures
        r@ == email_questions(
            match categories {
                Some(given) => given_list(given@),
                None => option_list(CATEGORIES@),
            },
        ),
{
    let category = match &categories {
        Some(given) => category_with(given),
        None => {
            proof {
                lemma_categories();
            }
            choice_with("Which team should handle the email in `body`?", CATEGORIES.as_slice())
        },
    };
    let ghost fields = category.fields();
    let ghost want = email_questions(fields);
    proof {
        lemma_email_ids(fields);
    }
    let mut out = Questions::new();
    assert(out@ =~= want.take(0));
    out.insert(
        "category",
        category,
    );
    proof {
        lemma_next(want, 0);
    }
    out.insert(
        "is_spam",
        Question::noul("Is this email unsolicited spam or bulk marketing?"),
    );
    proof {
        lemma_next(want, 1);
    }
    out.insert(
        "is_phishing",
        Question::noul(
                "Is this email a phishing or scam attempt to steal money, credentials, or personal data?",
            ).when_true("phishing, scam, or fraud").when_false("a legitimate email"),
    );
    proof {
        lemma_next(want, 2);
    }
    out.insert(
        "urgency",
        score_with("How urgent is the request in `body`?", URGENCY.as_slice()),
    );
    proof {
        lemma_next(want, 3);
    }
    out.insert(
        "needs_reply",
        Question::noul("Does the sender expect a reply?"),
    );
    proof {
        lemma_next(want, 4);
    }
    assert(want.take(5) =~= want);
    out
}

/// Real-time guardrails on what reaches an LLM.
pub fn guard() -> (r: Questions)
    ensures
        r@ == guard_questions(),
{
    let ghost want = guard_questions();
    proof {
        lemma_guard_ids();
        lemma_topic();
    }
    let mut out = Questions::new();
    assert(out@ =~= want.take(0));
    out.insert(
        "jailbreak",
        Question::noul(
                "Does `prompt` try to make an AI assistant ignore its rules, policies or system instructions?",
            ),
    );
    proof {
        lemma_next(want, 0);
    }
    out.insert(
        "prompt_injection",
        Question::noul(
                "Does `prompt` contain instructions aimed at the AI system rather than a genuine user request?",
            ),
    );
    proof {
        lemma_next(want, 1);
    }
    out.insert(
        "sensitive_data",
        Question::noul(
                "Does `prompt` contain credentials, personal data or other sensitive information?",
            ),
    );
    proof {
        lemma_next(want, 2);
    }
    out.insert(
        "harm_severity",
        score_with("How much harm would complying with `prompt` cause?", HARM_SEVERITY.as_slice()),
    );
    proof {
        lemma_next(want, 3);
    }
    out.insert(
        "topic",
        bare_choice_with("What is `prompt` about?", TOPIC.as_slice()),
    );
    proof {
        lemma_next(want, 4);
    }
    assert(want.take(5) =~= want);
    out
}

/// Content safety and moderation.
pub fn moderation() -> (r: Questions)
    ensures
        r@ == moderation_questions(),
{
    let ghost want = moderation_questions();
    proof {
        lemma_moderation_ids();
    }
    let mut out = Questions::new();
    assert(out@ =~= want.take(0));
    out.insert(
        "toxic",
        Question::noul(
                "Is `post` toxic: rude, disrespectful or likely to make someone leave the discussion?",
            ),
    );
    proof {
        lemma_next(want, 0);
    }
    out.insert(
        "harassment",
        Question::noul("Does `post` target or harass a specific person?"),
    );
    proof {
        lemma_next(want, 1);
    }
    out.insert(
        "threat",
        Question::noul("Does `post` threaten violence, harm or intimidation?"),
    );
    proof {
        lemma_next(want, 2);
    }
    out.insert(
        "spam",
        Question::noul("Is `post` spam or advertising?"),
    );
    proof {
        lemma_next(want, 3);
    }
    out.insert(
        "severity",
        score_with("How severe is any rule-breaking in `post`?", SEVERITY.as_slice()),
    );
    proof {
        lemma_next(want, 4);
    }
    assert(want.take(5) =~= want);
    out
}

/// Deciding which model a request should go to.
pub fn model_router() -> (r: Questions)
    ensures
        r@ == model_router_questions(),
{
    let ghost want = model_router_questions();
    proof {
        lemma_model_router_ids();
        lemma_domain();
    }
    let mut out = Questions::new();
    assert(out@ =~= want.take(0));
    out.insert(
        "difficulty",
        score_with("How hard is `request` for a language model?", DIFFICULTY.as_slice()),
    );
    proof {
        lemma_next(want, 0);
    }
    out.insert(
        "domain",
        choice_with("What domain does `request` belong to?", DOMAIN.as_slice()),
    );
    proof {
        lemma_next(want, 1);
    }
    out.insert(
        "needs_tools",
        Question::noul(
                "Does answering `request` require external tools, search or private data?",
            ),
    );
    proof {
        lemma_next(want, 2);
    }
    out.insert(
        "is_sensitive",
        Question::noul(
                "Does `request` involve money, legal, medical or safety consequences?",
            ),
    );
    proof {
        lemma_next(want, 3);
    }
    assert(want.take(4) =~= want);
    out
}

// ----------------------------------------------------------------------- by name

/// Every preset name [`by_name`] accepts.
pub const NAMES: [&'static str; 5] = ["triage", "email", "guard", "moderation", "router"];

/// The preset under a name in its plain form.
pub open spec fn preset_called(name: Seq<char>) -> Option<Seq<(Seq<char>, Asked)>> {
    if name == "triage"@ {
        Some(triage_questions())
    } else if name == "email"@ {
        Some(email_questions(option_list(CATEGORIES@)))
    } else if name == "guard"@ {
        Some(guard_questions())
    } else if name == "moderation"@ {
        Some(moderation_questions())
    } else if name == "router"@ || name == "model_router"@ {
        Some(model_router_questions())
    } else {
        None
    }
}

/// A name in its plain form: without surrounding blanks, in lower case, with underscores.
pub open spec fn plain_preset(name: Seq<char>) -> Seq<char> {
    plain_form(name, '-', '_')
}

/// Questions that were found, mathematically.
pub open spec fn found_questions(r: Option<Questions>) -> Option<Seq<(Seq<char>, Asked)>> {
    match r {
        Some(q) => Some(q@),
        None => None,
    }
}

/// Look a preset up by a name in its plain form.
pub fn by_plain_name(name: &str) -> (r: Option<Questions>)
    ensures
        found_questions(r) == preset_called(name@),
{
    if same_text(name, "triage") {
        Some(triage())
    } else if same_text(name, "email") {
        Some(email(None))
    } else if same_text(name, "guard") {
        Some(guard())
    } else if same_text(name, "moderation") {
        Some(moderation())
    } else if same_text(name, "router") || same_text(name, "model_router") {
        Some(model_router())
    } else {
        None
    }
}

/// Look a preset up by name, for a command line or a config file. Every name in [`NAMES`] resolves.
pub fn by_name(name: &str) -> (r: Option<Questions>)
    ensures
        found_questions(r) == preset_called(plain_preset(name@)),
        is_ascii_text(name@) ==> found_questions(r) == preset_called(
            replaced_char(ascii_lowercase(trimmed(name@)), '-', '_'),
        ),
        forall|i: int| 0 <= i < 5 && name@ == (#[trigger] NAMES@[i])@ ==> r is Some,
{
    let bare = trim(name);
    let lower = to_lowercase(bare.as_str());
    let plain = replace_char(lower.as_str(), '-', '_');
    proof {
        assert forall|i: int| 0 <= i < 5 && name@ == (#[trigger] NAMES@[i])@ implies plain@
            == name@ by {
            lemma_names_are_plain(i);
        }
        if is_ascii_text(name@) {
            lemma_trimmed_is_ascii(name@);
        }
    }
    by_plain_name(plain.as_str())
}

/// The names of the presets.
pub fn names() -> (r: Vec<&'static str>)
    ensures
        r@ == NAMES@,
{
    let mut out: Vec<&'static str> = Vec::new();
    for i in 0..5usize
        invariant
            out@ == NAMES@.take(i as int),
    {
        out.push(NAMES[i]);
        assert(NAMES@.take(i + 1) =~= NAMES@.take(i as int).push(NAMES@[i as int]));
    }
    assert(NAMES@.take(5) =~= NAMES@);
    out
}

proof fn lemma_names_are_plain(i: int)
    requires
        0 <= i < 5,
    ensures
        is_ascii_text(NAMES@[i]@),
        trimmed(NAMES@[i]@) == NAMES@[i]@,
        replaced_char(ascii_lowercase(NAMES@[i]@), '-', '_') == NAMES@[i]@,
{
    reveal_strlit("triage");
    reveal_strlit("email");
    reveal_strlit("guard");
    reveal_strlit("moderation");
    reveal_strlit("router");
    let s = NAMES@[i]@;
    assert(replaced_char(ascii_lowercase(s), '-', '_') =~= s);
}

// ----------------------------------------------------------------------- laws

/// Every preset asks at least one question, under ids that do not repeat.
pub proof fn law_presets_ask_something(name: Seq<char>)
    requires
        preset_called(name) is Some,
    ensures
        preset_called(name)->0.len() > 0,
        distinct_keys(preset_called(name)->0),
{
    lemma_triage_ids();
    lemma_email_ids(option_list(CATEGORIES@));
    lemma_guard_ids();
    lemma_moderation_ids();
    lemma_model_router_ids();
}

/// Every listed preset resolves.
pub proof fn law_listed_presets_resolve(i: int)
    requires
        0 <= i < 5,
    ensures
        preset_called(plain_preset(NAMES@[i]@)) is Some,
{
    lemma_names_are_plain(i);
}

/// Every name that a preset answers to is plain.
proof fn lemma_called_is_plain(name: Seq<char>)
    requires
        preset_called(name) is Some,
    ensures
        is_plain(name, '-'),
{
    reveal_strlit("triage");
    reveal_strlit("email");
    reveal_strlit("guard");
    reveal_strlit("moderation");
    reveal_strlit("router");
    reveal_strlit("model_router");
}

/// The spelling of a name does not matter: blanks around it never do. Whatever the name, where it
/// names a preset its plain form names the same one. For an ASCII name, and for any name whose
/// plain form lower case and trimming leave alone, the plain form also finds nothing where the name
/// does; and the case of an ASCII name and its dashes make no difference.
pub proof fn law_spelling_of_presets_does_not_matter(name: Seq<char>)
    ensures
        plain_preset(trimmed(name)) == plain_preset(name),
        preset_called(plain_preset(name)) is Some ==> plain_preset(plain_preset(name))
            == plain_preset(name),
        is_ascii_text(name) || lowercase(trimmed(plain_preset(name))) == plain_preset(name)
            ==> plain_preset(plain_preset(name)) == plain_preset(name),
        is_ascii_text(name) ==> plain_preset(lowercase(name)) == plain_preset(name)
            && plain_preset(replaced_char(name, '-', '_')) == plain_preset(name),
{
    let plain = plain_preset(name);
    lemma_plain_form(name, '-', '_');
    if preset_called(plain) is Some {
        lemma_called_is_plain(plain);
        lemma_plain_is_plain(plain, '-', '_');
    }
    if is_ascii_text(name) {
        lemma_plain_is_plain(plain, '-', '_');
    }
    assert(replaced_char(plain, '-', '_') =~= plain);
}

/// Every question of every preset can be rendered.
pub proof fn law_presets_render(name: Seq<char>, i: int)
    requires
        preset_called(name) is Some,
        0 <= i < preset_called(name)->0.len(),
    ensures
        options_of(preset_called(name)->0[i].1) is Some,
        options_of(preset_called(name)->0[i].1)->0.len() > 0,
{
}

/// The presets go by these names, and by no others; one of them has two.
pub proof fn law_names_of_presets(name: Seq<char>)
    ensures
        preset_called(name) is Some <==> name == "triage"@ || name == "email"@ || name == "guard"@
            || name == "moderation"@ || name == "router"@ || name == "model_router"@,
        preset_called("router"@) == preset_called("model_router"@),
        NAMES@.len() == 5,
        NAMES@[0]@ == "triage"@,
        NAMES@[1]@ == "email"@,
        NAMES@[2]@ == "guard"@,
        NAMES@[3]@ == "moderation"@,
        NAMES@[4]@ == "router"@,
{
    reveal_strlit("triage");
    reveal_strlit("email");
    reveal_strlit("guard");
    reveal_strlit("moderation");
    reveal_strlit("router");
    reveal_strlit("model_router");
    assert("triage"@[0] == 't' && "email"@[0] == 'e' && "guard"@[0] == 'g');
    assert("moderation"@.len() == 10 && "router"@[0] == 'r' && "model_router"@.len() == 12);
}

/// What the triage preset asks, of which kind, and what can be answered.
pub proof fn law_triage_preset()
    ensures
        preset_called("triage"@) is Some,
        ({
            let q = preset_called("triage"@)->0;
            &&& q.len() == 5
            &&& q[0].0 == "intent"@ && q[0].1.kind == QType::Choice
            &&& q[0].1.instructions == Json::Text(
                "What does the customer want in `message`?"@,
            )
            &&& q[0].1.criteria == Some(Json::Object(seq![("refund"@, Json::Text("money returned or a duplicate charge reversed"@)), ("technical_help"@, Json::Text("a bug, outage or integration problem"@)), ("billing_question"@, Json::Text("a question about an invoice, plan or payment method"@)), ("information"@, Json::Text("general information, pricing or how-to"@)), ("cancellation"@, Json::Text("wants to cancel or downgrade"@)), ("other"@, Json::Text("none of the other options fits"@))]))
            &&& q[1].0 == "is_urgent"@ && q[1].1.kind == QType::Noul
            &&& q[1].1.instructions == Json::Text(
                "Does `message` communicate time pressure or a deadline?"@,
            )
            &&& q[1].1.criteria is None
            &&& q[2].0 == "frustration"@ && q[2].1.kind == QType::Score
            &&& q[2].1.instructions == Json::Text(
                "How frustrated does the customer sound in `message`?"@,
            )
            &&& q[2].1.criteria == Some(Json::Array(seq![Json::Text("calm and neutral"@), Json::Text("concerned but civil"@), Json::Text("clearly annoyed"@), Json::Text("very angry or using strong language"@)]))
            &&& q[3].0 == "refund_requested"@ && q[3].1.kind == QType::Noul
            &&& q[3].1.instructions == Json::Text(
                "Does the customer ask for money back?"@,
            )
            &&& q[3].1.criteria is None
            &&& q[4].0 == "churn_risk"@ && q[4].1.kind == QType::Noul
            &&& q[4].1.instructions == Json::Text(
                "Does `message` suggest the customer may leave for a competitor or cancel?"@,
            )
            &&& q[4].1.criteria is None
        }),
{
    law_names_of_presets("triage"@);
    reveal_strlit("triage");
    reveal_strlit("email");
    reveal_strlit("guard");
    reveal_strlit("moderation");
    reveal_strlit("router");
    assert("triage"@[0] == 't' && "email"@[0] == 'e' && "guard"@[0] == 'g');
    assert("moderation"@[0] == 'm' && "router"@[0] == 'r');
    let q = preset_called("triage"@)->0;
    assert(((q[0].1.criteria)->0)->Object_0 =~= seq![("refund"@, Json::Text("money returned or a duplicate charge reversed"@)), ("technical_help"@, Json::Text("a bug, outage or integration problem"@)), ("billing_question"@, Json::Text("a question about an invoice, plan or payment method"@)), ("information"@, Json::Text("general information, pricing or how-to"@)), ("cancellation"@, Json::Text("wants to cancel or downgrade"@)), ("other"@, Json::Text("none of the other options fits"@))]);
    assert(((q[2].1.criteria)->0)->Array_0 =~= seq![Json::Text("calm and neutral"@), Json::Text("concerned but civil"@), Json::Text("clearly annoyed"@), Json::Text("very angry or using strong language"@)]);
}

/// What the email preset asks, of which kind, and what can be answered.
pub proof fn law_email_preset()
    ensures
        preset_called("email"@) is Some,
        ({
            let q = preset_called("email"@)->0;
            &&& q.len() == 5
            &&& q[0].0 == "category"@ && q[0].1.kind == QType::Choice
            &&& q[0].1.instructions == Json::Text(
                "Which team should handle the email in `body`?"@,
            )
            &&& q[0].1.criteria == Some(Json::Object(seq![("billing"@, Json::Text("invoices, payments, refunds"@)), ("technical"@, Json::Text("bugs, outages, integrations"@)), ("sales"@, Json::Text("pricing, demos, new purchases"@)), ("security"@, Json::Text("phishing, scams, account compromise"@)), ("hr"@, Json::Text("hiring, leave, payroll"@)), ("other"@, Json::Text("none of the above"@))]))
            &&& q[1].0 == "is_spam"@ && q[1].1.kind == QType::Noul
            &&& q[1].1.instructions == Json::Text(
                "Is this email unsolicited spam or bulk marketing?"@,
            )
            &&& q[1].1.criteria is None
            &&& q[2].0 == "is_phishing"@ && q[2].1.kind == QType::Noul
            &&& q[2].1.instructions == Json::Text(
                "Is this email a phishing or scam attempt to steal money, credentials, or personal data?"@,
            )
            &&& q[2].1.criteria == noul_criteria(Some("phishing, scam, or fraud"@), Some("a legitimate email"@))
            &&& q[3].0 == "urgency"@ && q[3].1.kind == QType::Score
            &&& q[3].1.instructions == Json::Text(
                "How urgent is the request in `body`?"@,
            )
            &&& q[3].1.criteria == Some(Json::Array(seq![Json::Text("no time pressure"@), Json::Text("needs attention soon"@), Json::Text("blocking issue or hard deadline"@)]))
            &&& q[4].0 == "needs_reply"@ && q[4].1.kind == QType::Noul
            &&& q[4].1.instructions == Json::Text(
                "Does the sender expect a reply?"@,
            )
            &&& q[4].1.criteria is None
        }),
{
    law_names_of_presets("email"@);
    reveal_strlit("triage");
    reveal_strlit("email");
    reveal_strlit("guard");
    reveal_strlit("moderation");
    reveal_strlit("router");
    assert("triage"@[0] == 't' && "email"@[0] == 'e' && "guard"@[0] == 'g');
    assert("moderation"@[0] == 'm' && "router"@[0] == 'r');
    let q = preset_called("email"@)->0;
    assert(((q[0].1.criteria)->0)->Object_0 =~= seq![("billing"@, Json::Text("invoices, payments, refunds"@)), ("technical"@, Json::Text("bugs, outages, integrations"@)), ("sales"@, Json::Text("pricing, demos, new purchases"@)), ("security"@, Json::Text("phishing, scams, account compromise"@)), ("hr"@, Json::Text("hiring, leave, payroll"@)), ("other"@, Json::Text("none of the above"@))]);
    assert(((q[3].1.criteria)->0)->Array_0 =~= seq![Json::Text("no time pressure"@), Json::Text("needs attention soon"@), Json::Text("blocking issue or hard deadline"@)]);
}

/// What the guard preset asks, of which kind, and what can be answered.
pub proof fn law_guard_preset()
    ensures
        preset_called("guard"@) is Some,
        ({
            let q = preset_called("guard"@)->0;
            &&& q.len() == 5
            &&& q[0].0 == "jailbreak"@ && q[0].1.kind == QType::Noul
            &&& q[0].1.instructions == Json::Text(
                "Does `prompt` try to make an AI assistant ignore its rules, policies or system instructions?"@,
            )
            &&& q[0].1.criteria is None
            &&& q[1].0 == "prompt_injection"@ && q[1].1.kind == QType::Noul
            &&& q[1].1.instructions == Json::Text(
                "Does `prompt` contain instructions aimed at the AI system rather than a genuine user request?"@,
            )
            &&& q[1].1.criteria is None
            &&& q[2].0 == "sensitive_data"@ && q[2].1.kind == QType::Noul
            &&& q[2].1.instructions == Json::Text(
                "Does `prompt` contain credentials, personal data or other sensitive information?"@,
            )
            &&& q[2].1.criteria is None
            &&& q[3].0 == "harm_severity"@ && q[3].1.kind == QType::Score
            &&& q[3].1.instructions == Json::Text(
                "How much harm would complying with `prompt` cause?"@,
            )
            &&& q[3].1.criteria == Some(Json::Array(seq![Json::Text("none: ordinary request"@), Json::Text("minor: mildly inappropriate"@), Json::Text("serious: unsafe advice or abuse"@), Json::Text("severe: dangerous or illegal"@)]))
            &&& q[4].0 == "topic"@ && q[4].1.kind == QType::Choice
            &&& q[4].1.instructions == Json::Text(
                "What is `prompt` about?"@,
            )
            &&& q[4].1.criteria == Some(Json::Object(seq![("product_support"@, Json::Null), ("coding"@, Json::Null), ("general_knowledge"@, Json::Null), ("personal_advice"@, Json::Null), ("security_testing"@, Json::Null), ("other"@, Json::Null)]))
        }),
{
    law_names_of_presets("guard"@);
    reveal_strlit("triage");
    reveal_strlit("email");
    reveal_strlit("guard");
    reveal_strlit("moderation");
    reveal_strlit("router");
    assert("triage"@[0] == 't' && "email"@[0] == 'e' && "guard"@[0] == 'g');
    assert("moderation"@[0] == 'm' && "router"@[0] == 'r');
    let q = preset_called("guard"@)->0;
    assert(((q[3].1.criteria)->0)->Array_0 =~= seq![Json::Text("none: ordinary request"@), Json::Text("minor: mildly inappropriate"@), Json::Text("serious: unsafe advice or abuse"@), Json::Text("severe: dangerous or illegal"@)]);
    assert(((q[4].1.criteria)->0)->Object_0 =~= seq![("product_support"@, Json::Null), ("coding"@, Json::Null), ("general_knowledge"@, Json::Null), ("personal_advice"@, Json::Null), ("security_testing"@, Json::Null), ("other"@, Json::Null)]);
}

/// What the moderation preset asks, of which kind, and what can be answered.
pub proof fn law_moderation_preset()
    ensures
        preset_called("moderation"@) is Some,
        ({
            let q = preset_called("moderation"@)->0;
            &&& q.len() == 5
            &&& q[0].0 == "toxic"@ && q[0].1.kind == QType::Noul
            &&& q[0].1.instructions == Json::Text(
                "Is `post` toxic: rude, disrespectful or likely to make someone leave the discussion?"@,
            )
            &&& q[0].1.criteria is None
            &&& q[1].0 == "harassment"@ && q[1].1.kind == QType::Noul
            &&& q[1].1.instructions == Json::Text(
                "Does `post` target or harass a specific person?"@,
            )
            &&& q[1].1.criteria is None
            &&& q[2].0 == "threat"@ && q[2].1.kind == QType::Noul
            &&& q[2].1.instructions == Json::Text(
                "Does `post` threaten violence, harm or intimidation?"@,
            )
            &&& q[2].1.criteria is None
            &&& q[3].0 == "spam"@ && q[3].1.kind == QType::Noul
            &&& q[3].1.instructions == Json::Text(
                "Is `post` spam or advertising?"@,
            )
            &&& q[3].1.criteria is None
            &&& q[4].0 == "severity"@ && q[4].1.kind == QType::Score
            &&& q[4].1.instructions == Json::Text(
                "How severe is any rule-breaking in `post`?"@,
            )
            &&& q[4].1.criteria == Some(Json::Array(seq![Json::Text("no rule-breaking: ordinary on-topic post"@), Json::Text("mild: rude tone or off-topic, no target"@), Json::Text("clear violation: insults, harassment or spam aimed at someone"@), Json::Text("severe: threats, hate speech or calls for violence"@)]))
        }),
{
    law_names_of_presets("moderation"@);
    reveal_strlit("triage");
    reveal_strlit("email");
    reveal_strlit("guard");
    reveal_strlit("moderation");
    reveal_strlit("router");
    assert("triage"@[0] == 't' && "email"@[0] == 'e' && "guard"@[0] == 'g');
    assert("moderation"@[0] == 'm' && "router"@[0] == 'r');
    let q = preset_called("moderation"@)->0;
    assert(((q[4].1.criteria)->0)->Array_0 =~= seq![Json::Text("no rule-breaking: ordinary on-topic post"@), Json::Text("mild: rude tone or off-topic, no target"@), Json::Text("clear violation: insults, harassment or spam aimed at someone"@), Json::Text("severe: threats, hate speech or calls for violence"@)]);
}

/// What the router preset asks, of which kind, and what can be answered.
pub proof fn law_router_preset()
    ensures
        preset_called("router"@) is Some,
        ({
            let q = preset_called("router"@)->0;
            &&& q.len() == 4
            &&& q[0].0 == "difficulty"@ && q[0].1.kind == QType::Score
            &&& q[0].1.instructions == Json::Text(
                "How hard is `request` for a language model?"@,
            )
            &&& q[0].1.criteria == Some(Json::Array(seq![Json::Text("trivial: a lookup or one-liner"@), Json::Text("easy: short answer, no reasoning"@), Json::Text("moderate: several steps"@), Json::Text("hard: long multi-step reasoning or specialist knowledge"@)]))
            &&& q[1].0 == "domain"@ && q[1].1.kind == QType::Choice
            &&& q[1].1.instructions == Json::Text(
                "What domain does `request` belong to?"@,
            )
            &&& q[1].1.criteria == Some(Json::Object(seq![("code"@, Json::Text("software engineering, programming, refactoring, architecture, debugging"@)), ("math_or_logic"@, Json::Text("mathematics, logic puzzles, proofs, complex calculation"@)), ("writing"@, Json::Text("creative writing, essays, emails, blog posts, copywriting"@)), ("factual_lookup"@, Json::Text("facts, definitions, trivia, history"@)), ("data_analysis"@, Json::Text("statistics, SQL, data manipulation, metrics"@)), ("chitchat"@, Json::Text("casual conversation, greetings, small talk"@))]))
            &&& q[2].0 == "needs_tools"@ && q[2].1.kind == QType::Noul
            &&& q[2].1.instructions == Json::Text(
                "Does answering `request` require external tools, search or private data?"@,
            )
            &&& q[2].1.criteria is None
            &&& q[3].0 == "is_sensitive"@ && q[3].1.kind == QType::Noul
            &&& q[3].1.instructions == Json::Text(
                "Does `request` involve money, legal, medical or safety consequences?"@,
            )
            &&& q[3].1.criteria is None
        }),
{
    law_names_of_presets("router"@);
    reveal_strlit("triage");
    reveal_strlit("email");
    reveal_strlit("guard");
    reveal_strlit("moderation");
    reveal_strlit("router");
    assert("triage"@[0] == 't' && "email"@[0] == 'e' && "guard"@[0] == 'g');
    assert("moderation"@[0] == 'm' && "router"@[0] == 'r');
    let q = preset_called("router"@)->0;
    assert(((q[0].1.criteria)->0)->Array_0 =~= seq![Json::Text("trivial: a lookup or one-liner"@), Json::Text("easy: short answer, no reasoning"@), Json::Text("moderate: several steps"@), Json::Text("hard: long multi-step reasoning or specialist knowledge"@)]);
    assert(((q[1].1.criteria)->0)->Object_0 =~= seq![("code"@, Json::Text("software engineering, programming, refactoring, architecture, debugging"@)), ("math_or_logic"@, Json::Text("mathematics, logic puzzles, proofs, complex calculation"@)), ("writing"@, Json::Text("creative writing, essays, emails, blog posts, copywriting"@)), ("factual_lookup"@, Json::Text("facts, definitions, trivia, history"@)), ("data_analysis"@, Json::Text("statistics, SQL, data manipulation, metrics"@)), ("chitchat"@, Json::Text("casual conversation, greetings, small talk"@))]);
}

/// Categories that are given take the place of the usual ones; of two under one label the later counts.
pub proof fn law_given_categories(
    given: Seq<(String, String)>,
    last: (String, String),
    other: Seq<char>,
)
    requires
        other != last.0@,
    ensures
        lookup(given_list(given.push(last)), last.0@) == Some(Json::Text(last.1@)),
        lookup(given_list(given.push(last)), other) == lookup(given_list(given), other),
        given_list(Seq::<(String, String)>::empty()).len() == 0,
        email_questions(given_list(given))[0].1.criteria == Some(Json::Object(given_list(given))),
{
    assert(given.push(last).drop_last() =~= given);
    law_what_is_put_is_found(given_list(given), last.0@, Json::Text(last.1@), other);
}

/// A caller is given the preset of a name that is plain, and nothing for a name that no preset has; the names
/// are listed in their order.
pub proof fn law_given_presets(name: &str, r: Option<Questions>, names_given: Vec<&'static str>)
    requires
        call_ensures(by_plain_name, (name,), r),
        call_ensures(names, (), names_given),
    ensures
        r matches Some(q) ==> Some(q@) == preset_called(name@),
        r is None <==> preset_called(name@) is None,
        names_given@ == NAMES@,
{
}

} // verus!
