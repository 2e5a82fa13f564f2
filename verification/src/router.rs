//! Sending each request to the checkpoint that can actually read it.
//!
//! The English checkpoint does not gently degrade off English, it collapses, and it reports high
//! confidence while doing so. Because it stays confident while being wrong, confidence gating
//! cannot save you. Script detection can, and it costs microseconds before the forward pass.

use vstd::prelude::*;
use vstd::string::*;

use crate::checkpoint::{hub_label, hub_label_of};
use crate::error::{concat2, concat3, Error, Failure};
use crate::float::{fraction_of, is_share, percent, percent_of};
use crate::json::{Json, Value};
use crate::lang::{
    analyse, detected, dominant, lemma_script_names, state_text_of, Detected, Detection,
};
use crate::ordered::{distinct_keys, find_key, has_key, lemma_find_key};
use crate::question::{optional_text, Asked, Questions};
use crate::text::{
    chars_of, decimal, decimal_text, is_white, replace_char, replaced_char, same_text, string_of,
    trim, trimmed,
};
use crate::unicode::{
    ascii_lowercase, is_ascii_text, is_plain, lemma_plain_form, lemma_plain_is_plain,
    lemma_trimmed_is_ascii, lowercase, plain_form, quote, quoted, to_lowercase,
};

verus! {

// ----------------------------------------------------------------------- model names

/// The Hub repository that bundles all three checkpoints.
pub const BUNDLE_REPO: &'static str = "convaiinnovations/laya";

/// The three checkpoints the router chooses between.
#[derive(Clone, Copy, Debug, PartialEq, Eq, Hash, PartialOrd, Ord, Structural)]
pub enum ModelName {
    /// ModernBERT-large, 421M, 512 tokens. English.
    English,
    /// mmBERT-base, 322M, 1024 tokens. 100+ languages, and about twice as fast.
    Multilingual,
    /// ModernBERT-large, 421M, 1024 tokens, fine-tuned on four synthetic workflows.
    TypedDecisions,
}

/// How a checkpoint is named.
pub open spec fn model_name(m: ModelName) -> Seq<char> {
    match m {
        ModelName::English => "english"@,
        ModelName::Multilingual => "multilingual"@,
        ModelName::TypedDecisions => "typed-decisions"@,
    }
}

/// The checkpoint that a name in its plain form stands for, the aliases people are likely to type
/// among them.
pub open spec fn model_called(name: Seq<char>) -> Option<ModelName> {
    if name == "english"@ || name == "en"@ || name == "laya"@ || name == "default"@ {
        Some(ModelName::English)
    } else if name == "multilingual"@ || name == "multi"@ || name == "ml"@ || name
        == "laya-multilingual"@ {
        Some(ModelName::Multilingual)
    } else if name == "typed-decisions"@ || name == "typed"@ || name == "decisions"@ || name
        == "laya-typed-decisions"@ {
        Some(ModelName::TypedDecisions)
    } else {
        None
    }
}

/// A name in its plain form: without surrounding blanks, in lower case, with dashes.
pub open spec fn plain_name(name: Seq<char>) -> Seq<char> {
    plain_form(name, '_', '-')
}

/// [`plain_name`] of an ASCII name, spelled out.
pub open spec fn plain_ascii_name(name: Seq<char>) -> Seq<char> {
    replaced_char(ascii_lowercase(trimmed(name)), '_', '-')
}

/// The complaint about a name no checkpoint has.
pub open spec fn unknown_model(plain: Seq<char>) -> Failure {
    Failure::UnknownModel(
        "unknown model "@ + quoted(plain) + "; choose english, multilingual or typed-decisions"@,
    )
}

impl ModelName {
    /// All three, in the order they are preloaded.
    pub const ALL: [ModelName; 3] = [
        ModelName::English,
        ModelName::Multilingual,
        ModelName::TypedDecisions,
    ];

    /// How the checkpoint is named.
    pub fn as_str(self) -> (r: &'static str)
        ensures
            r@ == model_name(self),
    {
        match self {
            ModelName::English => "english",
            ModelName::Multilingual => "multilingual",
            ModelName::TypedDecisions => "typed-decisions",
        }
    }

    /// Resolve a name in its plain form.
    pub fn from_plain(name: &str) -> (r: Result<Self, Error>)
        ensures
            match r {
                Ok(m) => model_called(name@) == Some(m),
                Err(e) => model_called(name@) is None && e@ == unknown_model(name@),
            },
    {
        if same_text(name, "english") || same_text(name, "en") || same_text(name, "laya")
            || same_text(name, "default") {
            Ok(ModelName::English)
        } else if same_text(name, "multilingual") || same_text(name, "multi") || same_text(
            name,
            "ml",
        ) || same_text(name, "laya-multilingual") {
            Ok(ModelName::Multilingual)
        } else if same_text(name, "typed-decisions") || same_text(name, "typed") || same_text(
            name,
            "decisions",
        ) || same_text(name, "laya-typed-decisions") {
            Ok(ModelName::TypedDecisions)
        } else {
            Err(
                Error::UnknownModel(
                    concat3(
                        "unknown model ",
                        quote(name).as_str(),
                        "; choose english, multilingual or typed-decisions",
                    ),
                ),
            )
        }
    }

    /// Resolve a name, accepting the aliases people are likely to type.
    pub fn parse(name: &str) -> (r: Result<Self, Error>)
        ensures
            match r {
                Ok(m) => model_called(plain_name(name@)) == Some(m),
                Err(e) => model_called(plain_name(name@)) is None && e@ == unknown_model(
                    plain_name(name@),
                ),
            },
            is_ascii_text(name@) ==> match r {
                Ok(m) => model_called(plain_ascii_name(name@)) == Some(m),
                Err(e) => model_called(plain_ascii_name(name@)) is None && e@ == unknown_model(
                    plain_ascii_name(name@),
                ),
            },
            forall|m: ModelName| name@ == #[trigger] model_name(m) ==> r == Ok::<Self, Error>(m),
    {
        let bare = trim(name);
        let lower = to_lowercase(bare.as_str());
        let plain = replace_char(lower.as_str(), '_', '-');
        proof {
            if is_ascii_text(name@) {
                lemma_trimmed_is_ascii(name@);
                assert(plain@ == plain_ascii_name(name@));
            }
            assert forall|m: ModelName| name@ == #[trigger] model_name(m) implies plain@
                == model_name(m) && model_called(plain@) == Some(m) by {
                lemma_name_is_plain(m);
            }
        }
        Self::from_plain(plain.as_str())
    }
}

/// The name of a checkpoint is its own plain form.
proof fn lemma_name_is_plain(m: ModelName)
    ensures
        is_ascii_text(model_name(m)),
        plain_ascii_name(model_name(m)) == model_name(m),
        model_called(model_name(m)) == Some(m),
{
    reveal_strlit("english");
    reveal_strlit("multilingual");
    reveal_strlit("typed-decisions");
    let s = model_name(m);
    assert(!is_white(s[0]) && !is_white(s.last()));
    assert(trimmed(s) == s);
    assert(plain_ascii_name(s) =~= s);
    reveal_strlit("en");
    reveal_strlit("laya");
    reveal_strlit("default");
    reveal_strlit("multi");
    reveal_strlit("ml");
    reveal_strlit("laya-multilingual");
    assert("english"@.len() == 7);
    assert("multilingual"@[0] == 'm');
    assert("typed-decisions"@[0] == 't');
}

// ----------------------------------------------------------------------- where checkpoints are

/// Where a checkpoint comes from.
#[derive(Clone, Debug)]
pub enum ModelSpec {
    /// A Hub repository, optionally a subfolder inside it.
    Hub { repo: String, subfolder: Option<String> },
    /// A checkpoint directory on disk.
    Dir(String),
}

/// How a spec reads in a routing decision.
pub open spec fn spec_label(spec: ModelSpec) -> Seq<char> {
    match spec {
        ModelSpec::Hub { repo, subfolder } => hub_label_of(repo@, optional_text(subfolder)),
        ModelSpec::Dir(path) => path@,
    }
}

impl ModelSpec {
    /// How this spec reads in a routing decision.
    pub fn label(&self) -> (r: String)
        ensures
            r@ == spec_label(*self),
    {
        match self {
            ModelSpec::Hub { repo, subfolder } => hub_label(repo.as_str(), subfolder),
            ModelSpec::Dir(path) => path.clone(),
        }
    }
}

/// One spec per checkpoint. Every checkpoint always has one.
#[derive(Clone, Debug)]
pub struct Specs {
    pub english: ModelSpec,
    pub multilingual: ModelSpec,
    pub typed_decisions: ModelSpec,
}

impl Specs {
    /// The spec of a checkpoint.
    pub open spec fn of(&self, name: ModelName) -> ModelSpec {
        match name {
            ModelName::English => self.english,
            ModelName::Multilingual => self.multilingual,
            ModelName::TypedDecisions => self.typed_decisions,
        }
    }
}

/// Whether a checkpoint comes from the bundle repository: English from its root, every other one
/// from a subfolder of its name.
pub open spec fn is_bundled(spec: ModelSpec, m: ModelName) -> bool {
    match spec {
        ModelSpec::Hub { repo, subfolder } => {
            &&& repo@ == BUNDLE_REPO@
            &&& optional_text(subfolder) == if m == ModelName::English {
                None
            } else {
                Some(model_name(m))
            }
        },
        ModelSpec::Dir(_) => false,
    }
}

/// The bundle repository: English at the root, every other checkpoint in a subfolder of its name.
pub fn default_models() -> (r: Specs)
    ensures
        forall|m: ModelName| is_bundled(#[trigger] r.of(m), m),
{
    Specs {
        english: ModelSpec::Hub { repo: BUNDLE_REPO.to_owned(), subfolder: None },
        multilingual: ModelSpec::Hub {
            repo: BUNDLE_REPO.to_owned(),
            subfolder: Some(ModelName::Multilingual.as_str().to_owned()),
        },
        typed_decisions: ModelSpec::Hub {
            repo: BUNDLE_REPO.to_owned(),
            subfolder: Some(ModelName::TypedDecisions.as_str().to_owned()),
        },
    }
}

// ----------------------------------------------------------------------- workflows

/// Question-id signatures of the four typed-decisions workflows, each sorted.
///
/// A match must be exact, so an unrelated schema that happens to contain `urgency` is never
/// captured.
pub const TYPED_DECISION_WORKFLOWS: [(&'static str, [&'static str; 5]); 4] = [
    ("agent_trace_observability", ["action", "needs_review", "outcome", "risk", "urgency"]),
    ("customer_service", ["action", "category", "churn_risk", "needs_human", "urgency"]),
    (
        "invoice_processing",
        ["discrepancy_severity", "disposition", "duplicate", "matches_order", "urgency"],
    ),
    (
        "security_incidents",
        ["credential_compromise", "disposition", "severity", "true_positive", "urgency"],
    ),
];

/// Whether the ids of some questions are exactly the ids of the `k`-th workflow.
pub open spec fn is_workflow(questions: Seq<(Seq<char>, Asked)>, k: int) -> bool {
    &&& questions.len() == 5
    &&& forall|j: int|
        0 <= j < 5 ==> has_key(questions, (#[trigger] TYPED_DECISION_WORKFLOWS@[k].1@[j])@)
}

/// The first workflow from the `k`-th on whose ids these are.
pub open spec fn workflow_from(questions: Seq<(Seq<char>, Asked)>, k: int) -> Option<Seq<char>>
    decreases 4 - k,
{
    if k >= 4 {
        None
    } else if is_workflow(questions, k) {
        Some(TYPED_DECISION_WORKFLOWS@[k].0@)
    } else {
        workflow_from(questions, k + 1)
    }
}

/// Name of the typed-decisions workflow these questions are, if any.
pub open spec fn workflow_of(questions: Seq<(Seq<char>, Asked)>) -> Option<Seq<char>> {
    workflow_from(questions, 0)
}

/// An optional text that lives as long as the program, mathematically.
pub open spec fn optional_str(s: Option<&'static str>) -> Option<Seq<char>> {
    match s {
        Some(s) => Some(s@),
        None => None,
    }
}

/// Name of the typed-decisions workflow these question ids are, if any.
pub fn match_typed_decisions_workflow(questions: &Questions) -> (r: Option<&'static str>)
    ensures
        optional_str(r) == workflow_of(questions@),
{
    for k in 0..4usize
        invariant
            workflow_of(questions@) == workflow_from(questions@, k as int),
    {
        let (name, ids) = TYPED_DECISION_WORKFLOWS[k];
        if has_ids(questions, &ids) {
            return Some(name);
        }
    }
    None
}

fn has_ids(questions: &Questions, ids: &[&'static str; 5]) -> (r: bool)
    ensures
        r == (questions@.len() == 5 && forall|j: int|
            0 <= j < 5 ==> has_key(questions@, (#[trigger] ids@[j])@)),
{
    if questions.len() != 5 {
        return false;
    }
    for j in 0..5usize
        invariant
            forall|i: int| 0 <= i < j ==> has_key(questions@, (#[trigger] ids@[i])@),
    {
        if questions.get(ids[j]).is_none() {
            assert(!has_key(questions@, ids@[j as int]@));
            return false;
        }
    }
    true
}

// ----------------------------------------------------------------------- decisions

/// Which checkpoint was chosen, and why.
#[derive(Clone, Debug)]
pub struct RouteDecision {
    pub model: ModelName,
    /// Where that checkpoint comes from.
    pub repo: String,
    /// Plain-language justification, safe to log or return in an API response.
    pub reason: String,
    /// The detection behind the decision; absent when the caller forced the choice.
    pub detection: Option<Detection>,
    /// The typed-decisions workflow the question ids matched, if any.
    pub workflow: Option<String>,
}

/// The mathematical content of a [`RouteDecision`].
pub struct Routed {
    pub model: ModelName,
    pub repo: Seq<char>,
    pub reason: Seq<char>,
    pub detection: Option<Detected>,
    pub workflow: Option<Seq<char>>,
}

impl View for RouteDecision {
    type V = Routed;

    open spec fn view(&self) -> Routed {
        Routed {
            model: self.model,
            repo: self.repo@,
            reason: self.reason@,
            detection: match self.detection {
                Some(d) => Some(d@),
                None => None,
            },
            workflow: optional_text(self.workflow),
        }
    }
}

/// Caller overrides for one routing decision.
#[derive(Clone, Debug)]
pub struct RouteOptions {
    /// Force a checkpoint by name.
    pub model: Option<String>,
    /// An older spelling of `model`: it takes a checkpoint name, not a workflow name.
    pub task: Option<String>,
    /// Declare the language instead of detecting it.
    pub lang: Option<String>,
}

/// The mathematical content of [`RouteOptions`].
pub struct Overrides {
    pub model: Option<Seq<char>>,
    pub task: Option<Seq<char>>,
    pub lang: Option<Seq<char>>,
}

impl View for RouteOptions {
    type V = Overrides;

    open spec fn view(&self) -> Overrides {
        Overrides {
            model: optional_text(self.model),
            task: optional_text(self.task),
            lang: optional_text(self.lang),
        }
    }
}

impl Default for RouteOptions {
    /// No overrides.
    fn default() -> (r: Self)
        ensures
            r@ == (Overrides { model: None, task: None, lang: None }),
    {
        RouteOptions { model: None, task: None, lang: None }
    }
}

impl RouteOptions {
    /// Force a checkpoint by name.
    pub fn model(name: &str) -> (r: Self)
        ensures
            r@ == (Overrides { model: Some(name@), task: None, lang: None }),
    {
        RouteOptions { model: Some(name.to_owned()), task: None, lang: None }
    }

    /// Declare the language.
    pub fn lang(code: &str) -> (r: Self)
        ensures
            r@ == (Overrides { model: None, task: None, lang: Some(code@) }),
    {
        RouteOptions { model: None, task: None, lang: Some(code.to_owned()) }
    }

    /// Force a checkpoint by name, in the older spelling.
    pub fn task(name: &str) -> (r: Self)
        ensures
            r@ == (Overrides { model: None, task: Some(name@), lang: None }),
    {
        RouteOptions { model: None, task: Some(name.to_owned()), lang: None }
    }
}

/// What stands before the first dash or underscore of a language code.
pub open spec fn code_head(code: Seq<char>) -> Seq<char>
    decreases code.len(),
{
    if code.len() == 0 || code[0] == '-' || code[0] == '_' {
        Seq::empty()
    } else {
        seq![code[0]] + code_head(code.drop_first())
    }
}

/// Whether a language code in lower case names English: `en-us`, `en_us` and `en` all do.
pub open spec fn names_english(code: Seq<char>) -> bool {
    let head = code_head(code);
    head == "en"@ || head == "eng"@ || head == "english"@
}

/// Whether a language code in lower case names English.
pub fn is_english_code(code: &str) -> (r: bool)
    ensures
        r == names_english(code@),
{
    let chars = chars_of(code);
    let mut head: Vec<char> = Vec::new();
    let n: usize = chars.len();
    let mut i: usize = 0;
    assert(code@.skip(0) =~= code@);
    assert(Seq::<char>::empty() + code_head(code@) =~= code_head(code@));
    while i < n && chars[i] != '-' && chars[i] != '_'
        invariant
            n == chars@.len(),
            chars@ == code@,
            i <= n,
            head@ + code_head(code@.skip(i as int)) == code_head(code@),
        decreases n - i,
    {
        let ghost rest = code@.skip(i as int);
        let ghost before = head@;
        assert(rest.drop_first() =~= code@.skip(i + 1));
        head.push(chars[i]);
        assert(head@ + code_head(rest.drop_first()) =~= before + code_head(rest));
        i = i + 1;
    }
    assert(code_head(code@.skip(i as int)) =~= Seq::empty()) by {
        if i < n {
            assert(code@.skip(i as int)[0] == chars@[i as int]);
        }
    }
    assert(head@ =~= code_head(code@));
    let word = string_of(head.as_slice());
    same_text(word.as_str(), "en") || same_text(word.as_str(), "eng") || same_text(
        word.as_str(),
        "english",
    )
}

/// The checkpoint that a detection calls for, and why.
pub open spec fn judged(det: Detected, default: ModelName) -> (ModelName, Seq<char>) {
    if det.script == "unknown"@ {
        (
            default,
            "no letters detected in state; using default ("@ + model_name(default) + ")"@,
        )
    } else if det.script != "latin"@ {
        (
            ModelName::Multilingual,
            "non-Latin script ("@ + det.script + ", "@ + decimal(
                percent_of(fraction_of(det.non_latin_fraction)),
            ) + "% of letters); the English checkpoint cannot read it"@,
        )
    } else if !det.is_english {
        (
            ModelName::Multilingual,
            match det.language {
                Some(code) => "Latin script but language looks like "@ + quoted(code)
                    + ", not English"@,
                None => "Latin script, language not identified but "@ + decimal(
                    percent_of(fraction_of(det.diacritic_rate)),
                ) + "% non-English letters; not safe for the English checkpoint"@,
            },
        )
    } else {
        (ModelName::English, "English Latin text"@)
    }
}

/// The checkpoint that a detection calls for, and why.
pub fn judge(det: &Detection, default: ModelName) -> (r: (ModelName, String))
    requires
        is_share(det.diacritic_rate),
        is_share(det.non_latin_fraction),
    ensures
        (r.0, r.1@) == judged(det@, default),
{
    if same_text(det.script.as_str(), "unknown") {
        (
            default,
            concat3("no letters detected in state; using default (", default.as_str(), ")"),
        )
    } else if !same_text(det.script.as_str(), "latin") {
        let mut reason = concat3("non-Latin script (", det.script.as_str(), ", ");
        reason.append(decimal_text(percent(det.non_latin_fraction) as u64).as_str());
        reason.append("% of letters); the English checkpoint cannot read it");
        (ModelName::Multilingual, reason)
    } else if !det.is_english {
        let reason = match &det.language {
            Some(code) => concat3(
                "Latin script but language looks like ",
                quote(code.as_str()).as_str(),
                ", not English",
            ),
            // Unidentified Latin-script language: routed on the non-English letters alone,
            // because no stopword list covers it.
            None => concat3(
                "Latin script, language not identified but ",
                decimal_text(percent(det.diacritic_rate) as u64).as_str(),
                "% non-English letters; not safe for the English checkpoint",
            ),
        };
        (ModelName::Multilingual, reason)
    } else {
        (ModelName::English, "English Latin text".to_owned())
    }
}

/// The rules that send each request to a checkpoint.
#[derive(Clone, Debug)]
pub struct Router {
    pub models: Specs,
    /// Which checkpoint answers a state with no letters in it.
    pub default: ModelName,
    /// Whether question ids may select the `typed-decisions` checkpoint.
    pub auto_task_detection: bool,
}

/// A decision for a checkpoint.
pub open spec fn decided(
    router: Router,
    model: ModelName,
    reason: Seq<char>,
    detection: Option<Detected>,
    workflow: Option<Seq<char>>,
) -> Routed {
    Routed { model, repo: spec_label(router.models.of(model)), reason, detection, workflow }
}

/// A decision that a caller forced by name: nothing is detected, and the workflow that the question
/// ids match is reported all the same.
pub open spec fn forced(
    router: Router,
    what: Seq<char>,
    name: Seq<char>,
    workflow: Option<Seq<char>>,
) -> Result<Routed, Failure> {
    match model_called(plain_name(name)) {
        Some(m) => Ok(
            decided(router, m, "explicit "@ + what + "="@ + quoted(name), None, workflow),
        ),
        None => Err(unknown_model(plain_name(name))),
    }
}

/// Which checkpoint to use for a state and some questions.
///
/// Precedence: explicit `model`, then explicit `task`, then a detected workflow (opt-in), then
/// explicit `lang`, then the detected script and language, then the default.
pub open spec fn routed(
    router: Router,
    state: Json,
    questions: Seq<(Seq<char>, Asked)>,
    opts: Overrides,
) -> Result<Routed, Failure> {
    let workflow = workflow_of(questions);
    if opts.model is Some {
        forced(router, "model"@, opts.model->0, workflow)
    } else if opts.task is Some {
        forced(router, "task"@, opts.task->0, workflow)
    } else if workflow is Some && router.auto_task_detection {
        Ok(
            decided(
                router,
                ModelName::TypedDecisions,
                "question ids match the "@ + quoted(workflow->0) + " typed-decisions workflow"@,
                None,
                workflow,
            ),
        )
    } else if opts.lang is Some {
        let lang = opts.lang->0;
        let model = if names_english(lowercase(lang)) {
            ModelName::English
        } else {
            ModelName::Multilingual
        };
        Ok(decided(router, model, "explicit lang="@ + quoted(lang), None, workflow))
    } else {
        let det = detected(state_text_of(state));
        let (model, reason) = judged(det, router.default);
        Ok(decided(router, model, reason, Some(det), workflow))
    }
}

/// A decision, or what went wrong with it.
pub open spec fn decision_outcome(r: Result<RouteDecision, Error>) -> Result<Routed, Failure> {
    match r {
        Ok(d) => Ok(d@),
        Err(e) => Err(e@),
    }
}

impl Router {
    /// The rules for the three published checkpoints.
    pub fn builder() -> (r: RouterBuilder)
        ensures
            r.max_loaded == 1,
            r.default == ModelName::English,
            !r.auto_task_detection,
            r.preload@ == Seq::<ModelName>::empty(),
            forall|m: ModelName| is_bundled(#[trigger] r.models.of(m), m),
    {
        RouterBuilder::new()
    }

    /// Where `name` is loaded from.
    pub fn spec(&self, name: ModelName) -> (r: &ModelSpec)
        ensures
            *r == self.models.of(name),
    {
        match name {
            ModelName::English => &self.models.english,
            ModelName::Multilingual => &self.models.multilingual,
            ModelName::TypedDecisions => &self.models.typed_decisions,
        }
    }

    fn decide(
        &self,
        model: ModelName,
        reason: String,
        detection: Option<Detection>,
        workflow: Option<&'static str>,
    ) -> (r: RouteDecision)
        ensures
            r@ == decided(
                *self,
                model,
                reason@,
                match detection {
                    Some(d) => Some(d@),
                    None => None,
                },
                optional_str(workflow),
            ),
    {
        RouteDecision {
            model,
            repo: self.spec(model).label(),
            reason,
            detection,
            workflow: match workflow {
                Some(w) => Some(w.to_owned()),
                None => None,
            },
        }
    }

    fn force(&self, what: &str, name: &str, workflow: Option<&'static str>) -> (r: Result<
        RouteDecision,
        Error,
    >)
        ensures
            decision_outcome(r) == forced(*self, what@, name@, optional_str(workflow)),
    {
        match ModelName::parse(name) {
            Ok(m) => {
                let mut reason = concat3("explicit ", what, "=");
                reason.append(quote(name).as_str());
                Ok(self.decide(m, reason, None, workflow))
            },
            Err(e) => Err(e),
        }
    }

    /// Decide which checkpoint to use, without loading or running anything.
    ///
    /// Precedence: explicit `model`, then explicit `task`, then a detected workflow (opt-in), then
    /// explicit `lang`, then the detected script and language, then the default.
    pub fn route(&self, state: &Value, questions: &Questions, opts: &RouteOptions) -> (r: Result<
        RouteDecision,
        Error,
    >)
        ensures
            decision_outcome(r) == routed(*self, state@, questions@, opts@),
    {
        let workflow = match_typed_decisions_workflow(questions);
        if let Some(name) = &opts.model {
            return self.force("model", name.as_str(), workflow);
        }
        // `task` is an older spelling of `model`; both name a checkpoint.
        if let Some(name) = &opts.task {
            return self.force("task", name.as_str(), workflow);
        }
        if self.auto_task_detection {
            if let Some(wf) = workflow {
                let reason = concat3(
                    "question ids match the ",
                    quote(wf).as_str(),
                    " typed-decisions workflow",
                );
                return Ok(self.decide(ModelName::TypedDecisions, reason, None, workflow));
            }
        }
        if let Some(lang) = &opts.lang {
            let lower = to_lowercase(lang.as_str());
            let model = if is_english_code(lower.as_str()) {
                ModelName::English
            } else {
                ModelName::Multilingual
            };
            let reason = concat2("explicit lang=", quote(lang.as_str()).as_str());
            return Ok(self.decide(model, reason, None, workflow));
        }
        let det = analyse(state);
        let (model, reason) = judge(&det, self.default);
        Ok(self.decide(model, reason, Some(det), workflow))
    }
}

// ----------------------------------------------------------------------- building a router

/// Builder for a [`Router`].
#[derive(Clone, Debug)]
pub struct RouterBuilder {
    pub models: Specs,
    /// How many checkpoints stay resident.
    pub max_loaded: usize,
    pub default: ModelName,
    pub auto_task_detection: bool,
    /// The checkpoints to build up front.
    pub preload: Vec<ModelName>,
}

impl RouterBuilder {
    /// The three published checkpoints, one of them resident at a time, English by default.
    pub fn new() -> (r: Self)
        ensures
            r.max_loaded == 1,
            r.default == ModelName::English,
            !r.auto_task_detection,
            r.preload@ == Seq::<ModelName>::empty(),
            forall|m: ModelName| is_bundled(#[trigger] r.models.of(m), m),
    {
        RouterBuilder {
            models: default_models(),
            max_loaded: 1,
            default: ModelName::English,
            auto_task_detection: false,
            preload: Vec::new(),
        }
    }

    /// Point one checkpoint somewhere else — a local directory, or your own Hub repository.
    pub fn model(self, name: ModelName, spec: ModelSpec) -> (r: Self)
        ensures
            r == (RouterBuilder { models: r.models, ..self }),
            r.models.of(name) == spec,
            forall|m: ModelName| m != name ==> #[trigger] r.models.of(m) == self.models.of(m),
    {
        let mut out = self;
        match name {
            ModelName::English => out.models.english = spec,
            ModelName::Multilingual => out.models.multilingual = spec,
            ModelName::TypedDecisions => out.models.typed_decisions = spec,
        }
        out
    }

    /// How many checkpoints stay resident. The least recently used is evicted beyond this.
    pub fn max_loaded(self, n: usize) -> (r: Self)
        ensures
            r == (RouterBuilder {
                max_loaded: if n < 1 {
                    1
                } else {
                    n
                },
                ..self
            }),
    {
        let mut out = self;
        out.max_loaded = if n < 1 {
            1
        } else {
            n
        };
        out
    }

    /// Which checkpoint answers a state with no letters in it.
    pub fn default_model(self, name: ModelName) -> (r: Self)
        ensures
            r == (RouterBuilder { default: name, ..self }),
    {
        let mut out = self;
        out.default = name;
        out
    }

    /// Let question ids select the `typed-decisions` checkpoint.
    ///
    /// Off by default: that checkpoint is fine-tuned on four specific synthetic workflows and
    /// should not become a silent default for anything that happens to share their question ids.
    pub fn auto_task_detection(self, on: bool) -> (r: Self)
        ensures
            r == (RouterBuilder { auto_task_detection: on, ..self }),
    {
        let mut out = self;
        out.auto_task_detection = on;
        out
    }

    /// Build these checkpoints up front, so no request ever pays a model load.
    pub fn preload(self, names: Vec<ModelName>) -> (r: Self)
        ensures
            r == (RouterBuilder { preload: r.preload, ..self }),
            r.preload@ == self.preload@ + names@,
    {
        let mut out = self;
        let mut more = names;
        out.preload.append(&mut more);
        out
    }

    /// The rules that were put together.
    pub fn build(self) -> (r: Router)
        ensures
            r == (Router {
                models: self.models,
                default: self.default,
                auto_task_detection: self.auto_task_detection,
            }),
    {
        Router {
            models: self.models,
            default: self.default,
            auto_task_detection: self.auto_task_detection,
        }
    }
}

// ----------------------------------------------------------------------- laws

/// Every name that a checkpoint answers to is plain.
proof fn lemma_called_is_plain(name: Seq<char>)
    requires
        model_called(name) is Some,
    ensures
        is_plain(name, '_'),
{
    reveal_strlit("english");
    reveal_strlit("en");
    reveal_strlit("laya");
    reveal_strlit("default");
    reveal_strlit("multilingual");
    reveal_strlit("multi");
    reveal_strlit("ml");
    reveal_strlit("laya-multilingual");
    reveal_strlit("typed-decisions");
    reveal_strlit("typed");
    reveal_strlit("decisions");
    reveal_strlit("laya-typed-decisions");
}

/// A checkpoint's name parses back to it, so no two checkpoints share a name.
pub proof fn law_names_parse_back(m: ModelName, other: ModelName)
    ensures
        model_called(plain_name(model_name(m))) == Some(m),
        model_name(m) == model_name(other) ==> m == other,
{
    lemma_name_is_plain(m);
    lemma_name_is_plain(other);
    lemma_trimmed_is_ascii(model_name(m));
}

/// The spelling of a name does not matter: blanks around it never do. Whatever the name, where it
/// names a checkpoint its plain form names the same one. For an ASCII name, and for any name whose
/// plain form lower case and trimming leave alone, the plain form also fails the same way; and the
/// case of an ASCII name and its underscores make no difference.
pub proof fn law_spelling_of_names_does_not_matter(name: Seq<char>)
    ensures
        plain_name(trimmed(name)) == plain_name(name),
        model_called(plain_name(name)) is Some ==> plain_name(plain_name(name)) == plain_name(
            name,
        ),
        is_ascii_text(name) || lowercase(trimmed(plain_name(name))) == plain_name(name)
            ==> plain_name(plain_name(name)) == plain_name(name),
        is_ascii_text(name) ==> plain_name(lowercase(name)) == plain_name(name) && plain_name(
            replaced_char(name, '_', '-'),
        ) == plain_name(name),
{
    let plain = plain_name(name);
    lemma_plain_form(name, '_', '-');
    if model_called(plain) is Some {
        lemma_called_is_plain(plain);
        lemma_plain_is_plain(plain, '_', '-');
    }
    if is_ascii_text(name) {
        lemma_plain_is_plain(plain, '_', '-');
    }
    assert(replaced_char(plain, '_', '-') =~= plain);
}

/// An explicit model wins: whatever the state, the questions and the other overrides are, only the
/// name decides, and nothing is detected. The workflow that the question ids match is reported.
pub proof fn law_explicit_model_wins(
    router: Router,
    state: Json,
    questions: Seq<(Seq<char>, Asked)>,
    opts: Overrides,
    name: Seq<char>,
)
    requires
        opts.model == Some(name),
    ensures
        match routed(router, state, questions, opts) {
            Ok(d) => model_called(plain_name(name)) == Some(d.model) && d.detection is None
                && d.workflow == workflow_of(questions),
            Err(e) => model_called(plain_name(name)) is None && e == unknown_model(
                plain_name(name),
            ),
        },
{
}

/// `task` is an alias for `model`: it picks the same checkpoint or fails the same way.
pub proof fn law_task_is_an_alias_for_model(
    router: Router,
    state: Json,
    questions: Seq<(Seq<char>, Asked)>,
    lang: Option<Seq<char>>,
    name: Seq<char>,
)
    ensures
        match (
            routed(
                router,
                state,
                questions,
                Overrides { model: None, task: Some(name), lang },
            ),
            routed(
                router,
                state,
                questions,
                Overrides { model: Some(name), task: None, lang },
            ),
        ) {
            (Ok(a), Ok(b)) => a.model == b.model && a.repo == b.repo && a.detection == b.detection
                && a.workflow == b.workflow,
            (Err(a), Err(b)) => a == b,
            _ => false,
        },
{
}

/// A workflow selects a checkpoint only when opted in: without it, the typed-decisions checkpoint
/// is chosen only by name or as the configured default for a state without letters.
pub proof fn law_workflow_needs_opting_in(
    router: Router,
    state: Json,
    questions: Seq<(Seq<char>, Asked)>,
    opts: Overrides,
)
    requires
        !router.auto_task_detection,
        opts.model is None,
        opts.task is None,
    ensures
        routed(router, state, questions, opts) is Ok,
        ({
            let d = routed(router, state, questions, opts)->Ok_0;
            &&& d.workflow == workflow_of(questions)
            &&& d.model == ModelName::TypedDecisions ==> router.default
                == ModelName::TypedDecisions && opts.lang is None && dominant(
                state_text_of(state),
            ) is None
        }),
{
    let text = state_text_of(state);
    if dominant(text) is Some {
        lemma_script_names(dominant(text)->0);
    }
}

/// A state the English checkpoint cannot read never reaches it undeclared: with no override, a
/// dominant script other than Latin goes to the multilingual checkpoint, and so does Latin text
/// that is not taken for English.
pub proof fn law_unreadable_states_go_to_multilingual(
    router: Router,
    state: Json,
    questions: Seq<(Seq<char>, Asked)>,
    opts: Overrides,
)
    requires
        opts.model is None,
        opts.task is None,
        opts.lang is None,
        workflow_of(questions) is None || !router.auto_task_detection,
        !detected(state_text_of(state)).is_english,
    ensures
        routed(router, state, questions, opts) is Ok,
        (routed(router, state, questions, opts)->Ok_0).model == ModelName::Multilingual,
{
    let text = state_text_of(state);
    reveal_strlit("unknown");
    reveal_strlit("latin");
    assert("unknown"@.len() == 7 && "latin"@.len() == 5);
    assert(dominant(text) is Some);
    lemma_script_names(dominant(text)->0);
}

/// A state without letters goes to the configured default, and an English one to the English
/// checkpoint, when nothing is overridden.
pub proof fn law_readable_states(
    router: Router,
    state: Json,
    questions: Seq<(Seq<char>, Asked)>,
    opts: Overrides,
)
    requires
        opts.model is None,
        opts.task is None,
        opts.lang is None,
        workflow_of(questions) is None || !router.auto_task_detection,
        detected(state_text_of(state)).is_english,
    ensures
        routed(router, state, questions, opts) is Ok,
        (routed(router, state, questions, opts)->Ok_0).model == if dominant(
            state_text_of(state),
        ) is None {
            router.default
        } else {
            ModelName::English
        },
{
    reveal_strlit("unknown");
    reveal_strlit("latin");
    assert("unknown"@.len() == 7 && "latin"@.len() == 5);
}

/// A workflow matches exactly: questions that match one have no other id than its signature's.
pub proof fn law_workflow_match_is_exact(questions: Seq<(Seq<char>, Asked)>, k: int, i: int)
    requires
        0 <= k < 4,
        is_workflow(questions, k),
        distinct_keys(questions),
        0 <= i < questions.len(),
    ensures
        exists|j: int|
            0 <= j < 5 && questions[i].0 == (#[trigger] TYPED_DECISION_WORKFLOWS@[k].1@[j])@,
{
    let ids = TYPED_DECISION_WORKFLOWS@[k].1@;
    lemma_signature_ids_differ(k);
    assert(has_key(questions, ids[0]@) && has_key(questions, ids[1]@) && has_key(
        questions,
        ids[2]@,
    ) && has_key(questions, ids[3]@) && has_key(questions, ids[4]@));
    lemma_find_key(questions, ids[0]@);
    lemma_find_key(questions, ids[1]@);
    lemma_find_key(questions, ids[2]@);
    lemma_find_key(questions, ids[3]@);
    lemma_find_key(questions, ids[4]@);
    let a = find_key(questions, ids[0]@) as int;
    let b = find_key(questions, ids[1]@) as int;
    let c = find_key(questions, ids[2]@) as int;
    let d = find_key(questions, ids[3]@) as int;
    let e = find_key(questions, ids[4]@) as int;
    assert(i == a || i == b || i == c || i == d || i == e);
}

proof fn lemma_signature_ids_differ(k: int)
    requires
        0 <= k < 4,
    ensures
        forall|i: int, j: int|
            0 <= i < j < 5 ==> (#[trigger] TYPED_DECISION_WORKFLOWS@[k].1@[i])@ != (
            #[trigger] TYPED_DECISION_WORKFLOWS@[k].1@[j])@,
{
    reveal_strlit("action");
    reveal_strlit("needs_review");
    reveal_strlit("outcome");
    reveal_strlit("risk");
    reveal_strlit("urgency");
    reveal_strlit("category");
    reveal_strlit("churn_risk");
    reveal_strlit("needs_human");
    reveal_strlit("discrepancy_severity");
    reveal_strlit("disposition");
    reveal_strlit("duplicate");
    reveal_strlit("matches_order");
    reveal_strlit("credential_compromise");
    reveal_strlit("severity");
    reveal_strlit("true_positive");
    let ids = TYPED_DECISION_WORKFLOWS@[k].1@;
    assert forall|i: int, j: int| 0 <= i < j < 5 implies (#[trigger] ids[i])@ != (#[trigger] ids[j])@ by {
        assert(ids[i]@.len() != ids[j]@.len() || ids[i]@[0] != ids[j]@[0]);
    }
}

/// Whether some questions have exactly these five ids.
pub open spec fn has_ids_of(
    questions: Seq<(Seq<char>, Asked)>,
    a: Seq<char>,
    b: Seq<char>,
    c: Seq<char>,
    d: Seq<char>,
    e: Seq<char>,
) -> bool {
    &&& questions.len() == 5
    &&& has_key(questions, a)
    &&& has_key(questions, b)
    &&& has_key(questions, c)
    &&& has_key(questions, d)
    &&& has_key(questions, e)
}

/// Each of the four workflows is known by its five question ids, in whatever order they are asked:
/// questions with exactly those ids, and no others, are matched to it by name.
pub proof fn law_every_workflow_is_matched(questions: Seq<(Seq<char>, Asked)>)
    requires
        distinct_keys(questions),
    ensures
        (workflow_of(questions) == Some("agent_trace_observability"@)) <==> has_ids_of(questions, "action"@, "needs_review"@, "outcome"@, "risk"@, "urgency"@),
        (workflow_of(questions) == Some("customer_service"@)) <==> has_ids_of(questions, "action"@, "category"@, "churn_risk"@, "needs_human"@, "urgency"@),
        (workflow_of(questions) == Some("invoice_processing"@)) <==> has_ids_of(questions, "discrepancy_severity"@, "disposition"@, "duplicate"@, "matches_order"@, "urgency"@),
        (workflow_of(questions) == Some("security_incidents"@)) <==> has_ids_of(questions, "credential_compromise"@, "disposition"@, "severity"@, "true_positive"@, "urgency"@),
        workflow_of(questions) matches Some(w) ==> w == "agent_trace_observability"@ || w
            == "customer_service"@ || w == "invoice_processing"@ || w == "security_incidents"@,
{
    reveal_strlit("action");
    reveal_strlit("needs_review");
    reveal_strlit("outcome");
    reveal_strlit("risk");
    reveal_strlit("urgency");
    reveal_strlit("category");
    reveal_strlit("churn_risk");
    reveal_strlit("needs_human");
    reveal_strlit("discrepancy_severity");
    reveal_strlit("disposition");
    reveal_strlit("duplicate");
    reveal_strlit("matches_order");
    reveal_strlit("credential_compromise");
    reveal_strlit("severity");
    reveal_strlit("true_positive");
    reveal_strlit("agent_trace_observability");
    reveal_strlit("customer_service");
    reveal_strlit("invoice_processing");
    reveal_strlit("security_incidents");
    lemma_signatures(questions);
    reveal_with_fuel(workflow_from, 5);
    assert("agent_trace_observability"@.len() == 25 && "customer_service"@.len() == 16);
    assert("invoice_processing"@[0] == 'i' && "security_incidents"@[0] == 's');
    if is_workflow(questions, 0) {
        lemma_apart_from(0);
        lemma_no_other_workflow(questions, 0, "category"@);
        lemma_no_other_workflow(questions, 0, "disposition"@);
    }
    if is_workflow(questions, 1) {
        lemma_apart_from(1);
        lemma_no_other_workflow(questions, 1, "outcome"@);
        lemma_no_other_workflow(questions, 1, "disposition"@);
    }
    if is_workflow(questions, 2) {
        lemma_apart_from(2);
        lemma_no_other_workflow(questions, 2, "action"@);
        lemma_no_other_workflow(questions, 2, "severity"@);
    }
    if is_workflow(questions, 3) {
        lemma_apart_from(3);
        lemma_no_other_workflow(questions, 3, "action"@);
        lemma_no_other_workflow(questions, 3, "duplicate"@);
    }
}

/// What the table says, id by id.
proof fn lemma_signatures(questions: Seq<(Seq<char>, Asked)>)
    ensures
        is_workflow(questions, 0) <==> has_ids_of(questions, "action"@, "needs_review"@, "outcome"@, "risk"@, "urgency"@),
        TYPED_DECISION_WORKFLOWS@[0].0@ == "agent_trace_observability"@,
        is_workflow(questions, 1) <==> has_ids_of(questions, "action"@, "category"@, "churn_risk"@, "needs_human"@, "urgency"@),
        TYPED_DECISION_WORKFLOWS@[1].0@ == "customer_service"@,
        is_workflow(questions, 2) <==> has_ids_of(questions, "discrepancy_severity"@, "disposition"@, "duplicate"@, "matches_order"@, "urgency"@),
        TYPED_DECISION_WORKFLOWS@[2].0@ == "invoice_processing"@,
        is_workflow(questions, 3) <==> has_ids_of(questions, "credential_compromise"@, "disposition"@, "severity"@, "true_positive"@, "urgency"@),
        TYPED_DECISION_WORKFLOWS@[3].0@ == "security_incidents"@,
{
    let t0 = TYPED_DECISION_WORKFLOWS@[0].1@;
    assert(t0[0]@ == "action"@ && t0[1]@ == "needs_review"@ && t0[2]@ == "outcome"@ && t0[3]@ == "risk"@ && t0[4]@ == "urgency"@);
    if has_ids_of(questions, "action"@, "needs_review"@, "outcome"@, "risk"@, "urgency"@) {
        assert forall|j: int| 0 <= j < 5 implies has_key(
            questions,
            (#[trigger] TYPED_DECISION_WORKFLOWS@[0].1@[j])@,
        ) by {
            assert(j == 0 || j == 1 || j == 2 || j == 3 || j == 4);
        }
    }
    let t1 = TYPED_DECISION_WORKFLOWS@[1].1@;
    assert(t1[0]@ == "action"@ && t1[1]@ == "category"@ && t1[2]@ == "churn_risk"@ && t1[3]@ == "needs_human"@ && t1[4]@ == "urgency"@);
    if has_ids_of(questions, "action"@, "category"@, "churn_risk"@, "needs_human"@, "urgency"@) {
        assert forall|j: int| 0 <= j < 5 implies has_key(
            questions,
            (#[trigger] TYPED_DECISION_WORKFLOWS@[1].1@[j])@,
        ) by {
            assert(j == 0 || j == 1 || j == 2 || j == 3 || j == 4);
        }
    }
    let t2 = TYPED_DECISION_WORKFLOWS@[2].1@;
    assert(t2[0]@ == "discrepancy_severity"@ && t2[1]@ == "disposition"@ && t2[2]@ == "duplicate"@ && t2[3]@ == "matches_order"@ && t2[4]@ == "urgency"@);
    if has_ids_of(questions, "discrepancy_severity"@, "disposition"@, "duplicate"@, "matches_order"@, "urgency"@) {
        assert forall|j: int| 0 <= j < 5 implies has_key(
            questions,
            (#[trigger] TYPED_DECISION_WORKFLOWS@[2].1@[j])@,
        ) by {
            assert(j == 0 || j == 1 || j == 2 || j == 3 || j == 4);
        }
    }
    let t3 = TYPED_DECISION_WORKFLOWS@[3].1@;
    assert(t3[0]@ == "credential_compromise"@ && t3[1]@ == "disposition"@ && t3[2]@ == "severity"@ && t3[3]@ == "true_positive"@ && t3[4]@ == "urgency"@);
    if has_ids_of(questions, "credential_compromise"@, "disposition"@, "severity"@, "true_positive"@, "urgency"@) {
        assert forall|j: int| 0 <= j < 5 implies has_key(
            questions,
            (#[trigger] TYPED_DECISION_WORKFLOWS@[3].1@[j])@,
        ) by {
            assert(j == 0 || j == 1 || j == 2 || j == 3 || j == 4);
        }
    }
}

/// Some ids that are not in each signature.
proof fn lemma_apart_from(k: int)
    requires
        0 <= k < 4,
    ensures
        forall|j: int|
            0 <= j < 5 ==> {
                let id = (#[trigger] TYPED_DECISION_WORKFLOWS@[k].1@[j])@;
                &&& k == 0 ==> apart(id, "category"@) && apart(id, "disposition"@)
                &&& k == 1 ==> apart(id, "outcome"@) && apart(id, "disposition"@)
                &&& k == 2 ==> apart(id, "action"@) && apart(id, "severity"@)
                &&& k == 3 ==> apart(id, "action"@) && apart(id, "duplicate"@)
            },
{
    reveal_strlit("action");
    reveal_strlit("needs_review");
    reveal_strlit("outcome");
    reveal_strlit("risk");
    reveal_strlit("urgency");
    reveal_strlit("category");
    reveal_strlit("churn_risk");
    reveal_strlit("needs_human");
    reveal_strlit("discrepancy_severity");
    reveal_strlit("disposition");
    reveal_strlit("duplicate");
    reveal_strlit("matches_order");
    reveal_strlit("credential_compromise");
    reveal_strlit("severity");
    reveal_strlit("true_positive");
    let ids = TYPED_DECISION_WORKFLOWS@[k].1@;
    assert forall|j: int| 0 <= j < 5 implies {
        let id = (#[trigger] ids[j])@;
        &&& k == 0 ==> apart(id, "category"@) && apart(id, "disposition"@)
        &&& k == 1 ==> apart(id, "outcome"@) && apart(id, "disposition"@)
        &&& k == 2 ==> apart(id, "action"@) && apart(id, "severity"@)
        &&& k == 3 ==> apart(id, "action"@) && apart(id, "duplicate"@)
    } by {
        assert(j == 0 || j == 1 || j == 2 || j == 3 || j == 4);
    }
}

/// Whether two texts differ in their lengths or at their beginnings.
spec fn apart(a: Seq<char>, b: Seq<char>) -> bool {
    a.len() != b.len() || a[0] != b[0]
}

/// Questions that match a workflow have no id that is not in its signature.
proof fn lemma_no_other_workflow(questions: Seq<(Seq<char>, Asked)>, k: int, id: Seq<char>)
    requires
        0 <= k < 4,
        is_workflow(questions, k),
        distinct_keys(questions),
        forall|j: int| 0 <= j < 5 ==> apart((#[trigger] TYPED_DECISION_WORKFLOWS@[k].1@[j])@, id),
    ensures
        !has_key(questions, id),
{
    if has_key(questions, id) {
        lemma_find_key(questions, id);
        law_workflow_match_is_exact(questions, k, find_key(questions, id) as int);
    }
}

/// Where question ids may select the typed-decisions checkpoint, and neither a model nor a task is
/// named, questions with exactly the ids of one of the four workflows go to that checkpoint, whatever
/// the state and the language are, and the decision names the workflow.
pub proof fn law_workflow_questions_go_to_typed_decisions(
    router: Router,
    state: Json,
    questions: Seq<(Seq<char>, Asked)>,
    opts: Overrides,
)
    requires
        distinct_keys(questions),
        router.auto_task_detection,
        opts.model is None,
        opts.task is None,
        has_ids_of(questions, "action"@, "needs_review"@, "outcome"@, "risk"@, "urgency"@)
            || has_ids_of(questions, "action"@, "category"@, "churn_risk"@, "needs_human"@, "urgency"@)
            || has_ids_of(questions, "discrepancy_severity"@, "disposition"@, "duplicate"@, "matches_order"@, "urgency"@)
            || has_ids_of(questions, "credential_compromise"@, "disposition"@, "severity"@, "true_positive"@, "urgency"@),
    ensures
        routed(router, state, questions, opts) is Ok,
        ({
            let d = routed(router, state, questions, opts)->Ok_0;
            &&& d.model == ModelName::TypedDecisions
            &&& d.detection is None
            &&& has_ids_of(questions, "action"@, "needs_review"@, "outcome"@, "risk"@, "urgency"@) ==> d.workflow == Some("agent_trace_observability"@)
            &&& has_ids_of(questions, "action"@, "category"@, "churn_risk"@, "needs_human"@, "urgency"@) ==> d.workflow == Some("customer_service"@)
            &&& has_ids_of(questions, "discrepancy_severity"@, "disposition"@, "duplicate"@, "matches_order"@, "urgency"@) ==> d.workflow == Some("invoice_processing"@)
            &&& has_ids_of(questions, "credential_compromise"@, "disposition"@, "severity"@, "true_positive"@, "urgency"@) ==> d.workflow == Some("security_incidents"@)
        }),
{
    law_every_workflow_is_matched(questions);
}

/// A checkpoint answers to its four names and to no other.
pub proof fn law_names_of_checkpoints(name: Seq<char>)
    ensures
        model_called(name) == Some(ModelName::English) <==> name == "english"@ || name == "en"@
            || name == "laya"@ || name == "default"@,
        model_called(name) == Some(ModelName::Multilingual) <==> name == "multilingual"@ || name
            == "multi"@ || name == "ml"@ || name == "laya-multilingual"@,
        model_called(name) == Some(ModelName::TypedDecisions) <==> name == "typed-decisions"@
            || name == "typed"@ || name == "decisions"@ || name == "laya-typed-decisions"@,
        model_name(ModelName::English) == "english"@,
        model_name(ModelName::Multilingual) == "multilingual"@,
        model_name(ModelName::TypedDecisions) == "typed-decisions"@,
{
    reveal_strlit("english");
    reveal_strlit("en");
    reveal_strlit("laya");
    reveal_strlit("default");
    reveal_strlit("multilingual");
    reveal_strlit("multi");
    reveal_strlit("ml");
    reveal_strlit("laya-multilingual");
    reveal_strlit("typed-decisions");
    reveal_strlit("typed");
    reveal_strlit("decisions");
    reveal_strlit("laya-typed-decisions");
    assert("english"@.len() == 7 && "en"@.len() == 2 && "laya"@.len() == 4);
    assert("default"@[0] == 'd' && "english"@[0] == 'e' && "en"@[0] == 'e' && "laya"@[0] == 'l');
    assert("multilingual"@[0] == 'm' && "multi"@[0] == 'm' && "ml"@[0] == 'm');
    assert("typed-decisions"@[0] == 't' && "typed"@[0] == 't' && "decisions"@.len() == 9);
    assert("laya-multilingual"@[5] == 'm' && "laya-typed-decisions"@[5] == 't');
    assert("default"@.len() == 7 && "laya-multilingual"@.len() == 17);
}

/// Whether a code is this word, alone or before a dash or an underscore.
pub open spec fn is_or_begins(code: Seq<char>, word: Seq<char>) -> bool {
    &&& word.len() <= code.len()
    &&& code.take(word.len() as int) == word
    &&& word.len() < code.len() ==> code[word.len() as int] == '-' || code[word.len() as int]
        == '_'
}

/// A language code names English when it is `en`, `eng` or `english`, alone or before a dash or an
/// underscore, and in no other case.
pub proof fn law_codes_of_english(code: Seq<char>)
    ensures
        names_english(code) <==> is_or_begins(code, "en"@) || is_or_begins(code, "eng"@)
            || is_or_begins(code, "english"@),
{
    reveal_strlit("en");
    reveal_strlit("eng");
    reveal_strlit("english");
    lemma_code_head(code, "en"@);
    lemma_code_head(code, "eng"@);
    lemma_code_head(code, "english"@);
}

proof fn lemma_code_head(code: Seq<char>, word: Seq<char>)
    requires
        forall|i: int| 0 <= i < word.len() ==> #[trigger] word[i] != '-' && word[i] != '_',
    ensures
        code_head(code) == word <==> is_or_begins(code, word),
    decreases code.len(),
{
    let head = code_head(code);
    if code.len() == 0 || code[0] == '-' || code[0] == '_' {
        if word.len() == 0 {
            assert(word =~= Seq::empty());
            assert(code.take(0) =~= word);
        } else if is_or_begins(code, word) {
            assert(code.take(word.len() as int)[0] == word[0]);
        }
    } else if word.len() == 0 {
        assert(head.len() > 0);
    } else {
        let rest = code.drop_first();
        let tail = word.drop_first();
        assert forall|i: int| 0 <= i < tail.len() implies #[trigger] tail[i] != '-' && tail[i]
            != '_' by {
            assert(tail[i] == word[i + 1]);
        }
        lemma_code_head(rest, tail);
        if head == word {
            assert(head[0] == code[0]);
            assert(head.drop_first() =~= code_head(rest));
            assert(code.take(word.len() as int) =~= seq![code[0]] + rest.take(tail.len() as int));
            assert(seq![word[0]] + tail =~= word);
        }
        if is_or_begins(code, word) {
            assert(code.take(word.len() as int)[0] == word[0]);
            assert(rest.take(tail.len() as int) =~= code.take(word.len() as int).drop_first());
            assert(seq![word[0]] + tail =~= word);
        }
    }
}

/// A declared language is taken at its word: unless a model, a task or a workflow decides, English
/// goes to the English checkpoint and everything else to the multilingual one, and nothing is
/// detected.
pub proof fn law_declared_language_decides(
    router: Router,
    state: Json,
    questions: Seq<(Seq<char>, Asked)>,
    opts: Overrides,
    lang: Seq<char>,
)
    requires
        opts.model is None,
        opts.task is None,
        opts.lang == Some(lang),
        workflow_of(questions) is None || !router.auto_task_detection,
    ensures
        routed(router, state, questions, opts) is Ok,
        ({
            let d = routed(router, state, questions, opts)->Ok_0;
            let code = lowercase(lang);
            &&& d.model == if is_or_begins(code, "en"@) || is_or_begins(code, "eng"@)
                || is_or_begins(code, "english"@) {
                ModelName::English
            } else {
                ModelName::Multilingual
            }
            &&& d.detection is None
            &&& d.reason == "explicit lang="@ + quoted(lang)
        }),
{
    law_codes_of_english(lowercase(lang));
}

/// A decision names the place that its checkpoint comes from: the directory, or the repository with
/// its subfolder.
pub proof fn law_decisions_name_their_checkpoint(
    router: Router,
    state: Json,
    questions: Seq<(Seq<char>, Asked)>,
    opts: Overrides,
)
    ensures
        routed(router, state, questions, opts) matches Ok(d) ==> {
            &&& d.workflow == workflow_of(questions)
            &&& d.repo == match d.model {
                ModelName::English => spec_label(router.models.english),
                ModelName::Multilingual => spec_label(router.models.multilingual),
                ModelName::TypedDecisions => spec_label(router.models.typed_decisions),
            }
        },
        routed(router, state, questions, opts) is Err ==> opts.model is Some || opts.task is Some,
        opts.model matches Some(name) ==> (routed(router, state, questions, opts) matches Ok(d)
            ==> d.reason == "explicit model="@ + quoted(name)),
        opts.model is None ==> (opts.task matches Some(name) ==> (routed(
            router,
            state,
            questions,
            opts,
        ) matches Ok(d) ==> d.reason == "explicit task="@ + quoted(name))),
        routed(router, state, questions, opts) matches Ok(d) ==> (d.detection is Some
            <==> opts.model is None && opts.task is None && opts.lang is None && !(
        router.auto_task_detection && workflow_of(questions) is Some)),
{
    reveal_strlit("explicit ");
    reveal_strlit("model");
    reveal_strlit("task");
    reveal_strlit("=");
    reveal_strlit("explicit model=");
    reveal_strlit("explicit task=");
    assert("explicit "@ + "model"@ + "="@ =~= "explicit model="@);
    assert("explicit "@ + "task"@ + "="@ =~= "explicit task="@);
}

/// The place of a checkpoint reads as its directory, or as its repository, with the subfolder behind
/// a slash.
pub proof fn law_places_read_as_they_are(spec: ModelSpec)
    ensures
        match spec {
            ModelSpec::Dir(path) => spec_label(spec) == path@,
            ModelSpec::Hub { repo, subfolder: None } => spec_label(spec) == repo@,
            ModelSpec::Hub { repo, subfolder: Some(sub) } => spec_label(spec) == repo@ + seq!['/']
                + sub@,
        },
{
    reveal_strlit("/");
    assert("/"@ =~= seq!['/']);
}

/// The published checkpoints come from one repository: English from its root, each of the others from the
/// subfolder of its name.
pub proof fn law_bundled_checkpoints(repo: String, sub: String, m: ModelName)
    ensures
        is_bundled(ModelSpec::Hub { repo, subfolder: None }, m) <==> m == ModelName::English && repo@
            == "convaiinnovations/laya"@,
        is_bundled(ModelSpec::Hub { repo, subfolder: Some(sub) }, m) <==> repo@
            == "convaiinnovations/laya"@ && ((m == ModelName::Multilingual && sub@
            == "multilingual"@) || (m == ModelName::TypedDecisions && sub@ == "typed-decisions"@)),
{
}

/// Why a detection leads where it leads: the reason names the script or the language, and the share of
/// letters that decided, as the nearest percentage.
pub proof fn law_reasons_of_detection(det: Detected, default: ModelName)
    ensures
        det.script == "unknown"@ ==> judged(det, default).1
            == "no letters detected in state; using default ("@ + model_name(default) + ")"@,
        det.script != "unknown"@ && det.script != "latin"@ ==> judged(det, default).1
            == "non-Latin script ("@ + det.script + ", "@ + decimal(
            percent_of(fraction_of(det.non_latin_fraction)),
        ) + "% of letters); the English checkpoint cannot read it"@,
        det.script == "latin"@ && det.is_english ==> judged(det, default).1 == "English Latin text"@,
        det.script == "latin"@ && !det.is_english ==> match det.language {
            Some(code) => judged(det, default).1 == "Latin script but language looks like "@ + quoted(
                code,
            ) + ", not English"@,
            None => judged(det, default).1 == "Latin script, language not identified but "@ + decimal(
                percent_of(fraction_of(det.diacritic_rate)),
            ) + "% non-English letters; not safe for the English checkpoint"@,
        },
{
    reveal_strlit("unknown");
    reveal_strlit("latin");
    assert("unknown"@.len() == 7 && "latin"@.len() == 5);
}

/// However few are asked for, one checkpoint at least stays resident, and otherwise as many as were asked
/// for; nothing else of the rules changes.
pub proof fn law_one_stays_resident(b: RouterBuilder, n: usize, r: RouterBuilder)
    requires
        call_ensures(RouterBuilder::max_loaded, (b, n), r),
    ensures
        r.max_loaded >= 1,
        n >= 1 ==> r.max_loaded == n,
        r.default == b.default,
        r.auto_task_detection == b.auto_task_detection,
        r.models == b.models,
        r.preload == b.preload,
{
}

/// Unless told otherwise a router keeps one checkpoint, falls back to English, and does not let question
/// ids select a checkpoint.
pub proof fn law_router_defaults(r: RouterBuilder)
    requires
        call_ensures(Router::builder, (), r),
    ensures
        r.max_loaded == 1,
        r.default == ModelName::English,
        !r.auto_task_detection,
        r.preload@.len() == 0,
{
}

// ----------------------------------------------------------------------- what callers are given

/// Questions that are exactly a workflow's are named by it to every caller; and a router that may go by
/// question ids, asked without a model or a task, decides for the typed-decisions checkpoint.
pub proof fn law_given_workflows(
    questions: &Questions,
    name: Option<&'static str>,
    router: &Router,
    state: &Value,
    opts: &RouteOptions,
    r: Result<RouteDecision, Error>,
)
    requires
        call_ensures(match_typed_decisions_workflow, (questions,), name),
        call_ensures(Router::route, (router, state, questions, opts), r),
        distinct_keys(questions@),
        router.auto_task_detection,
        opts@.model is None,
        opts@.task is None,
        has_ids_of(
            questions@,
            "action"@,
            "needs_review"@,
            "outcome"@,
            "risk"@,
            "urgency"@,
        ) || has_ids_of(
            questions@,
            "action"@,
            "category"@,
            "churn_risk"@,
            "needs_human"@,
            "urgency"@,
        ) || has_ids_of(
            questions@,
            "discrepancy_severity"@,
            "disposition"@,
            "duplicate"@,
            "matches_order"@,
            "urgency"@,
        ) || has_ids_of(
            questions@,
            "credential_compromise"@,
            "disposition"@,
            "severity"@,
            "true_positive"@,
            "urgency"@,
        ),
    ensures
        name is Some,
        name matches Some(n) ==> Some(n@) == workflow_of(questions@),
        r matches Ok(d) && d.model == ModelName::TypedDecisions && d@.workflow == workflow_of(
            questions@,
        ),
{
    law_every_workflow_is_matched(questions@);
    law_workflow_questions_go_to_typed_decisions(*router, state@, questions@, opts@);
}

/// Whatever is asked, the decision that a caller is given is the one that the rules come to.
pub proof fn law_given_decisions(
    router: &Router,
    state: &Value,
    questions: &Questions,
    opts: &RouteOptions,
    r: Result<RouteDecision, Error>,
)
    requires
        call_ensures(Router::route, (router, state, questions, opts), r),
    ensures
        decision_outcome(r) == routed(*router, state@, questions@, opts@),
{
}

} // verus!
