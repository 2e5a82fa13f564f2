//! What a prediction returns.

use vstd::prelude::*;
use vstd::string::*;

use crate::float::{
    bits_of, complement, encode, fraction_of, is_share, less, open_share, subtract_from_one, Float,
};
use crate::json::{Json, Value};
use crate::ordered::{
    distinct_keys, find_key, keys_of, lemma_find_key, lemma_find_key_unique, lemma_lookup_mapped,
    lookup, mapped, OrderedMap,
};
use crate::router::RouteDecision;
use crate::text::{same_text, texts};

verus! {

// ----------------------------------------------------------------------- answers

/// The auxiliary action head's read on a question.
#[derive(Clone, Copy, Debug, PartialEq, Eq, Structural)]
pub struct Action {
    /// Probability the model would act on this answer rather than escalate it.
    pub act_probability: Float,
}

/// One answer, shaped by the primitive that was asked.
pub enum Answer {
    /// The picked label, with a probability for every option.
    Choice {
        choice: String,
        probabilities: OrderedMap<Float>,
        confidence: Float,
        action: Action,
    },
    /// The expected level, with the level descriptions it was scored against.
    Score {
        score: Float,
        legend: OrderedMap<Value>,
        probabilities: OrderedMap<Float>,
        confidence: Float,
        action: Action,
    },
    /// The probability the statement holds.
    Noul { noul: Float, confidence: Float, action: Action },
}

/// The mathematical content of an [`Answer`].
pub enum Answered {
    Choice {
        choice: Seq<char>,
        probabilities: Seq<(Seq<char>, Float)>,
        confidence: Float,
        action: Action,
    },
    Score {
        score: Float,
        legend: Seq<(Seq<char>, Json)>,
        probabilities: Seq<(Seq<char>, Float)>,
        confidence: Float,
        action: Action,
    },
    Noul { noul: Float, confidence: Float, action: Action },
}

/// Values under keys, mathematically.
pub open spec fn legend_of(s: Seq<(Seq<char>, Value)>) -> Seq<(Seq<char>, Json)> {
    mapped(s, |v: Value| v@)
}

impl View for Answer {
    type V = Answered;

    open spec fn view(&self) -> Answered {
        match self {
            Answer::Choice { choice, probabilities, confidence, action } => Answered::Choice {
                choice: choice@,
                probabilities: probabilities@,
                confidence: *confidence,
                action: *action,
            },
            Answer::Score { score, legend, probabilities, confidence, action } => Answered::Score {
                score: *score,
                legend: legend_of(legend@),
                probabilities: probabilities@,
                confidence: *confidence,
                action: *action,
            },
            Answer::Noul { noul, confidence, action } => Answered::Noul {
                noul: *noul,
                confidence: *confidence,
                action: *action,
            },
        }
    }
}

/// The confidence in an answer.
pub open spec fn confidence_in(a: Answered) -> Float {
    match a {
        Answered::Choice { confidence, .. } => confidence,
        Answered::Score { confidence, .. } => confidence,
        Answered::Noul { confidence, .. } => confidence,
    }
}

/// The action head's read on an answer.
pub open spec fn action_on(a: Answered) -> Action {
    match a {
        Answered::Choice { action, .. } => action,
        Answered::Score { action, .. } => action,
        Answered::Noul { action, .. } => action,
    }
}

/// A probability: a number, or what a number leaves of one.
#[derive(Clone, Copy, Debug, PartialEq, Eq, Structural)]
pub enum Probability {
    /// This number.
    Of(Float),
    /// One minus this number.
    Not(Float),
}

/// The probability an answer assigns to an option.
pub open spec fn probability_in(a: Answered, label: Seq<char>) -> Option<Probability> {
    match a {
        Answered::Choice { probabilities, .. } => match lookup(probabilities, label) {
            Some(p) => Some(Probability::Of(p)),
            None => None,
        },
        Answered::Score { probabilities, .. } => match lookup(probabilities, label) {
            Some(p) => Some(Probability::Of(p)),
            None => None,
        },
        Answered::Noul { noul, .. } => if label == "true"@ {
            Some(Probability::Of(noul))
        } else if label == "false"@ {
            Some(Probability::Not(noul))
        } else {
            None
        },
    }
}

impl Probability {
    /// The number itself. One minus a number is computed where the number is between zero and one,
    /// as every probability is; there is no value for anything else.
    pub fn value(self) -> (r: Option<Float>)
        ensures
            match self {
                Probability::Of(p) => r == Some(p),
                Probability::Not(p) => if is_share(p) {
                    r is Some && (r->0).bits == bits_of(complement(fraction_of(p)))
                } else {
                    r is None
                },
            },
    {
        match self {
            Probability::Of(p) => Some(p),
            Probability::Not(p) => match open_share(p) {
                Some(d) => Some(encode(subtract_from_one(d))),
                None => None,
            },
        }
    }
}

impl Answer {
    /// Calibrated confidence in this answer, between 0 and 1.
    ///
    /// For `choice` and `score` this is normalised entropy over the options; for `noul` it is the
    /// distance of the probability from a coin flip.
    pub fn confidence(&self) -> (r: Float)
        ensures
            r == confidence_in(self@),
            match self {
                Answer::Choice { confidence, .. } => r == *confidence,
                Answer::Score { confidence, .. } => r == *confidence,
                Answer::Noul { confidence, .. } => r == *confidence,
            },
    {
        match self {
            Answer::Choice { confidence, .. } => *confidence,
            Answer::Score { confidence, .. } => *confidence,
            Answer::Noul { confidence, .. } => *confidence,
        }
    }

    /// The auxiliary action head's read.
    pub fn action(&self) -> (r: Action)
        ensures
            r == action_on(self@),
            match self {
                Answer::Choice { action, .. } => r == *action,
                Answer::Score { action, .. } => r == *action,
                Answer::Noul { action, .. } => r == *action,
            },
    {
        match self {
            Answer::Choice { action, .. } => *action,
            Answer::Score { action, .. } => *action,
            Answer::Noul { action, .. } => *action,
        }
    }

    /// The picked label, for a `choice` answer.
    pub fn as_choice(&self) -> (r: Option<&str>)
        ensures
            match r {
                Some(s) => self@ is Choice && self@->choice == s@,
                None => !(self@ is Choice),
            },
    {
        match self {
            Answer::Choice { choice, .. } => Some(choice.as_str()),
            _ => None,
        }
    }

    /// The expected level, for a `score` answer.
    pub fn as_score(&self) -> (r: Option<Float>)
        ensures
            match r {
                Some(x) => self@ is Score && self@->score == x,
                None => !(self@ is Score),
            },
    {
        match self {
            Answer::Score { score, .. } => Some(*score),
            _ => None,
        }
    }

    /// The probability the statement holds, for a `noul` answer.
    pub fn as_noul(&self) -> (r: Option<Float>)
        ensures
            match r {
                Some(x) => self@ is Noul && self@->noul == x,
                None => !(self@ is Noul),
            },
    {
        match self {
            Answer::Noul { noul, .. } => Some(*noul),
            _ => None,
        }
    }

    /// Probability assigned to one option, by label (or by level index for `score`).
    pub fn probability(&self, label: &str) -> (r: Option<Probability>)
        ensures
            r == probability_in(self@, label@),
    {
        match self {
            Answer::Choice { probabilities, .. } => match probabilities.get(label) {
                Some(p) => Some(Probability::Of(*p)),
                None => None,
            },
            Answer::Score { probabilities, .. } => match probabilities.get(label) {
                Some(p) => Some(Probability::Of(*p)),
                None => None,
            },
            Answer::Noul { noul, .. } => {
                if same_text(label, "true") {
                    Some(Probability::Of(*noul))
                } else if same_text(label, "false") {
                    Some(Probability::Not(*noul))
                } else {
                    None
                }
            },
        }
    }
}

// ----------------------------------------------------------------------- predictions

/// How much of the sequence budget a prediction used.
///
/// `output_tokens` is always zero: nothing is generated, which is the point.
#[derive(Clone, Copy, Debug, PartialEq, Eq, Structural)]
pub struct Usage {
    pub input_tokens: usize,
    pub output_tokens: usize,
}

/// The result of one forward pass over a set of questions.
pub struct Prediction {
    /// Identifier of the runtime that produced this.
    pub model: String,
    /// One answer per question, in the order the questions were given.
    pub answers: OrderedMap<Answer>,
    pub usage: Usage,
    /// Present when the prediction came through a router.
    pub routing: Option<RouteDecision>,
}

/// Answers under their questions' ids, mathematically.
pub open spec fn answers_of(s: Seq<(Seq<char>, Answer)>) -> Seq<(Seq<char>, Answered)> {
    mapped(s, |a: Answer| a@)
}

/// The ids of the answers below a threshold, in order.
pub open spec fn weak(answers: Seq<(Seq<char>, Answered)>, threshold: Float) -> Seq<Seq<char>>
    decreases answers.len(),
{
    if answers.len() == 0 {
        Seq::empty()
    } else {
        let before = weak(answers.drop_last(), threshold);
        if less(confidence_in(answers.last().1), threshold) {
            before.push(answers.last().0)
        } else {
            before
        }
    }
}

impl Prediction {
    /// The answer to one question.
    pub fn get(&self, id: &str) -> (r: Option<&Answer>)
        ensures
            match r {
                Some(a) => lookup(answers_of(self.answers@), id@) == Some(a@),
                None => lookup(answers_of(self.answers@), id@) is None,
            },
    {
        proof {
            lemma_lookup_mapped(self.answers@, |a: Answer| a@, id@);
        }
        self.answers.get(id)
    }

    /// Every question whose answer is below `threshold`, for confidence gating.
    ///
    /// The probabilities are trained against strictly proper scoring rules, so gating on them is
    /// meaningful — but only within a checkpoint's competence: the English checkpoint scores
    /// non-Latin scripts at chance *while staying confident*, which is what the router is for.
    pub fn below_confidence(&self, threshold: Float) -> (r: Vec<String>)
        ensures
            texts(r@) == weak(answers_of(self.answers@), threshold),
    {
        let ghost all = answers_of(self.answers@);
        let mut out: Vec<String> = Vec::new();
        let n: usize = self.answers.len();
        assert(texts(out@) =~= weak(all.take(0), threshold));
        for i in 0..n
            invariant
                n == self.answers@.len(),
                all == answers_of(self.answers@),
                texts(out@) == weak(all.take(i as int), threshold),
        {
            assert(all.take(i + 1).drop_last() =~= all.take(i as int));
            let (id, answer) = self.answers.at(i);
            assert(all[i as int] == (id@, answer@));
            if answer.confidence().less_than(threshold) {
                let ghost before = texts(out@);
                out.push(id.to_owned());
                assert(texts(out@) =~= before.push(id@));
            }
        }
        assert(all.take(all.len() as int) =~= all);
        out
    }
}

// ----------------------------------------------------------------------- laws

/// The confidence in an answer is the confidence it carries, and the action head's read is the one
/// it carries, whatever else the answer says.
pub proof fn law_confidence_and_action_are_what_the_answer_carries(
    choice: Seq<char>,
    score: Float,
    noul: Float,
    legend: Seq<(Seq<char>, Json)>,
    probabilities: Seq<(Seq<char>, Float)>,
    confidence: Float,
    action: Action,
)
    ensures
        confidence_in(Answered::Choice { choice, probabilities, confidence, action }) == confidence,
        confidence_in(Answered::Score { score, legend, probabilities, confidence, action })
            == confidence,
        confidence_in(Answered::Noul { noul, confidence, action }) == confidence,
        action_on(Answered::Choice { choice, probabilities, confidence, action }) == action,
        action_on(Answered::Score { score, legend, probabilities, confidence, action }) == action,
        action_on(Answered::Noul { noul, confidence, action }) == action,
{
}

/// Whether `ids` are the ids of the answers at these places, in increasing order of place.
pub open spec fn ids_at(answers: Seq<(Seq<char>, Answered)>, at: Seq<int>, ids: Seq<Seq<char>>) -> bool {
    &&& at.len() == ids.len()
    &&& forall|k: int|
        0 <= k < at.len() ==> 0 <= #[trigger] at[k] < answers.len() && answers[at[k]].0 == ids[k]
    &&& forall|j: int, k: int| 0 <= j < k < at.len() ==> #[trigger] at[j] < #[trigger] at[k]
}

/// Gating lists an answer exactly when the confidence it carries is below the threshold, and keeps
/// the order of the answers.
pub proof fn law_gating_lists_exactly_the_unsure(
    answers: Seq<(Seq<char>, Answered)>,
    threshold: Float,
)
    ensures
        exists|at: Seq<int>|
            {
                &&& #[trigger] ids_at(answers, at, weak(answers, threshold))
                &&& forall|i: int|
                    0 <= i < answers.len() ==> (at.contains(i) <==> match (
                    #[trigger] answers[i]).1 {
                        Answered::Choice { confidence, .. } => less(confidence, threshold),
                        Answered::Score { confidence, .. } => less(confidence, threshold),
                        Answered::Noul { confidence, .. } => less(confidence, threshold),
                    })
            },
    decreases answers.len(),
{
    if answers.len() == 0 {
        assert(ids_at(answers, Seq::empty(), weak(answers, threshold)));
    } else {
        let before = answers.drop_last();
        let last = answers.len() - 1;
        law_gating_lists_exactly_the_unsure(before, threshold);
        let at = choose|at: Seq<int>|
            {
                &&& #[trigger] ids_at(before, at, weak(before, threshold))
                &&& forall|i: int|
                    0 <= i < before.len() ==> (at.contains(i) <==> match (
                    #[trigger] before[i]).1 {
                        Answered::Choice { confidence, .. } => less(confidence, threshold),
                        Answered::Score { confidence, .. } => less(confidence, threshold),
                        Answered::Noul { confidence, .. } => less(confidence, threshold),
                    })
            };
        assert(answers[last] == answers.last());
        assert(!at.contains(last));
        let now = if less(confidence_in(answers[last].1), threshold) {
            at.push(last)
        } else {
            at
        };
        assert(ids_at(answers, now, weak(answers, threshold)));
        assert forall|i: int| 0 <= i < answers.len() implies (now.contains(i) <==> match (
        #[trigger] answers[i]).1 {
            Answered::Choice { confidence, .. } => less(confidence, threshold),
            Answered::Score { confidence, .. } => less(confidence, threshold),
            Answered::Noul { confidence, .. } => less(confidence, threshold),
        }) by {
            if i < last {
                assert(before[i] == answers[i]);
                if at.contains(i) {
                    let k = choose|k: int| 0 <= k < at.len() && at[k] == i;
                    assert(now[k] == i);
                }
            } else if now.len() > at.len() {
                assert(now[now.len() - 1] == last);
            }
        }
    }
}

/// The probability of an option is the one that stands under its label, and an option that is not
/// there has none. A boolean answer gives its number to `true` and the rest of it to `false`.
pub proof fn law_probability_is_that_of_the_label(a: Answered, label: Seq<char>, i: int)
    ensures
        match a {
            Answered::Choice { probabilities, .. } => {
                &&& distinct_keys(probabilities) && 0 <= i < probabilities.len()
                    && probabilities[i].0 == label ==> probability_in(a, label) == Some(
                    Probability::Of(probabilities[i].1),
                )
                &&& probability_in(a, label) is None <==> !keys_of(probabilities).contains(label)
            },
            Answered::Score { probabilities, .. } => {
                &&& distinct_keys(probabilities) && 0 <= i < probabilities.len()
                    && probabilities[i].0 == label ==> probability_in(a, label) == Some(
                    Probability::Of(probabilities[i].1),
                )
                &&& probability_in(a, label) is None <==> !keys_of(probabilities).contains(label)
            },
            Answered::Noul { noul, .. } => {
                &&& label == seq!['t', 'r', 'u', 'e'] ==> probability_in(a, label) == Some(
                    Probability::Of(noul),
                )
                &&& label == seq!['f', 'a', 'l', 's', 'e'] ==> probability_in(a, label) == Some(
                    Probability::Not(noul),
                )
                &&& probability_in(a, label) is None <==> label != seq!['t', 'r', 'u', 'e'] && label
                    != seq!['f', 'a', 'l', 's', 'e']
            },
        },
{
    reveal_strlit("true");
    reveal_strlit("false");
    assert("true"@ =~= seq!['t', 'r', 'u', 'e']);
    assert("false"@ =~= seq!['f', 'a', 'l', 's', 'e']);
    assert("true"@.len() != "false"@.len());
    match a {
        Answered::Choice { probabilities, .. } => lemma_lookup(probabilities, label, i),
        Answered::Score { probabilities, .. } => lemma_lookup(probabilities, label, i),
        _ => {},
    }
}

proof fn lemma_lookup(s: Seq<(Seq<char>, Float)>, key: Seq<char>, i: int)
    ensures
        distinct_keys(s) && 0 <= i < s.len() && s[i].0 == key ==> lookup(s, key) == Some(s[i].1),
        lookup(s, key) is None <==> !keys_of(s).contains(key),
{
    lemma_find_key(s, key);
    if distinct_keys(s) && 0 <= i < s.len() && s[i].0 == key {
        lemma_find_key_unique(s, key, i);
    }
    if lookup(s, key) is Some {
        assert(keys_of(s)[find_key(s, key) as int] == key);
    } else if keys_of(s).contains(key) {
        let k = choose|k: int| 0 <= k < s.len() && keys_of(s)[k] == key;
        assert(s[k].0 == key);
    }
}

// ----------------------------------------------------------------------- what callers are given

/// A caller is given the confidence and the action that the answer carries, and by gating the ids of the
/// answers that carry less than the threshold.
pub proof fn law_given_confidence(
    a: &Answer,
    c: Float,
    action: Action,
    p: &Prediction,
    threshold: Float,
    ids: Vec<String>,
)
    requires
        call_ensures(Answer::confidence, (a,), c),
        call_ensures(Answer::action, (a,), action),
        call_ensures(Prediction::below_confidence, (p, threshold), ids),
    ensures
        match *a {
            Answer::Choice { confidence, action: x, .. } => c == confidence && action == x,
            Answer::Score { confidence, action: x, .. } => c == confidence && action == x,
            Answer::Noul { confidence, action: x, .. } => c == confidence && action == x,
        },
        texts(ids@) == weak(answers_of(p.answers@), threshold),
{
}

/// A caller is given the value of an answer under the name of its kind, and under no other.
pub proof fn law_given_values(
    a: &Answer,
    choice: Option<&str>,
    score: Option<Float>,
    noul: Option<Float>,
    label: &str,
    p: Option<Probability>,
)
    requires
        call_ensures(Answer::as_choice, (a,), choice),
        call_ensures(Answer::as_score, (a,), score),
        call_ensures(Answer::as_noul, (a,), noul),
        call_ensures(Answer::probability, (a, label), p),
    ensures
        match *a {
            Answer::Choice { choice: c, .. } => choice is Some && (choice->0)@ == c@ && score is None
                && noul is None,
            Answer::Score { score: s, .. } => choice is None && score == Some(s) && noul is None,
            Answer::Noul { noul: n, .. } => choice is None && score is None && noul == Some(n),
        },
        p == probability_in(a@, label@),
{
}

} // verus!
