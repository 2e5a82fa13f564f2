//! The three decision primitives and how they render into option texts.
//!
//! A question is one of `choice` (pick a label), `score` (rate against ordered levels) or `noul`
//! (a calibrated boolean). Every variant is answered by scoring one `[MASK]` marker per option, so
//! the *rendering* of the options is part of the model input and has to be stable.

use vstd::prelude::*;
use vstd::std_specs::convert::FromSpecImpl;
use vstd::string::*;

use crate::error::{concat3, Error, Failure};
use crate::json::{field, Json, Value};
use crate::ordered::{
    distinct_keys, find_key, keys_of, law_what_is_put_is_found, lemma_lookup_mapped,
    lemma_put_fresh, lemma_put_mapped, lookup, mapped, put, OrderedMap,
};
use crate::pyjson::{dumped, render, render_instructions, rendered, rendered_instructions};
use crate::text::{all_digits, decimal, decimal_text, digits_value, lemma_decimal, texts};

verus! {

// ----------------------------------------------------------------------- kinds

/// The kind of decision a question asks for.
#[derive(Clone, Copy, Debug, PartialEq, Eq, Hash, Structural)]
pub enum QType {
    /// Pick exactly one label out of a named set.
    Choice,
    /// Rate the state against ordered descriptive levels.
    Score,
    /// A boolean question, answered as the probability that it holds.
    Noul,
}

/// The word that opens the rendered head of a question of this kind.
pub open spec fn kind_name(kind: QType) -> Seq<char> {
    match kind {
        QType::Choice => "choice"@,
        QType::Score => "score"@,
        QType::Noul => "noul"@,
    }
}

/// The index of a kind in the model's type embedding.
pub open spec fn kind_index(kind: QType) -> nat {
    match kind {
        QType::Choice => 0,
        QType::Score => 1,
        QType::Noul => 2,
    }
}

impl QType {
    /// All three, in the order of the model's type embedding.
    pub const ALL: [QType; 3] = [QType::Choice, QType::Score, QType::Noul];

    /// Index used by the model's type embedding. Must match the training order.
    pub fn index(self) -> (r: usize)
        ensures
            r == kind_index(self),
    {
        match self {
            QType::Choice => 0,
            QType::Score => 1,
            QType::Noul => 2,
        }
    }

    /// The word that opens the rendered question head.
    pub fn name(self) -> (r: &'static str)
        ensures
            r@ == kind_name(self),
    {
        match self {
            QType::Choice => "choice",
            QType::Score => "score",
            QType::Noul => "noul",
        }
    }
}

// ----------------------------------------------------------------------- questions

/// One typed question.
///
/// `instructions` and `criteria` are JSON: structured values are accepted there and rendered as
/// JSON into the prompt.
#[derive(Debug)]
pub struct Question {
    pub kind: QType,
    pub instructions: Value,
    pub criteria: Option<Value>,
}

/// The mathematical content of a [`Question`].
pub struct Asked {
    pub kind: QType,
    pub instructions: Json,
    pub criteria: Option<Json>,
}

/// An optional value, mathematically.
pub open spec fn optional(v: Option<Value>) -> Option<Json> {
    match v {
        Some(v) => Some(v@),
        None => None,
    }
}

impl View for Question {
    type V = Asked;

    open spec fn view(&self) -> Asked {
        Asked {
            kind: self.kind,
            instructions: self.instructions@,
            criteria: optional(self.criteria),
        }
    }
}

impl Clone for Question {
    fn clone(&self) -> (r: Question)
        ensures
            r@ == self@,
    {
        let criteria = match &self.criteria {
            Some(v) => Some(v.clone()),
            None => None,
        };
        Question { kind: self.kind, instructions: self.instructions.clone(), criteria }
    }
}

/// Whether a criterion says nothing: null or an empty string. Zero and false are real criteria.
pub open spec fn is_blank(j: Json) -> bool {
    match j {
        Json::Null => true,
        Json::Text(s) => s.len() == 0,
        _ => false,
    }
}

/// The option text of a label with this criterion.
pub open spec fn labelled(label: Seq<char>, criterion: Json) -> Seq<char> {
    if is_blank(criterion) {
        label
    } else {
        label + ": "@ + rendered(criterion)
    }
}

/// One side of a boolean question: its own wording, or the generic one.
pub open spec fn side(criteria: Option<Json>, key: Seq<char>, generic: Seq<char>) -> Seq<char> {
    let given = match criteria {
        Some(c) => field(c, key),
        None => None,
    };
    match given {
        Some(v) => if is_blank(v) {
            key + ": "@ + generic
        } else {
            key + ": "@ + rendered(v)
        },
        None => key + ": "@ + generic,
    }
}

/// The labels and texts of a question's options, in marker order; `None` when its criteria do not
/// fit its kind.
pub open spec fn options_of(q: Asked) -> Option<Seq<(Seq<char>, Seq<char>)>> {
    match q.kind {
        QType::Choice => match q.criteria {
            // A bare list of labels is shorthand for "no description for any of them".
            Some(Json::Array(items)) => Some(
                Seq::new(items.len(), |i: int| (rendered(items[i]), rendered(items[i]))),
            ),
            Some(Json::Object(fields)) => Some(
                Seq::new(
                    fields.len(),
                    |i: int| (fields[i].0, labelled(fields[i].0, fields[i].1)),
                ),
            ),
            _ => None,
        },
        QType::Score => match q.criteria {
            Some(Json::Array(levels)) => if levels.len() == 0 {
                None
            } else {
                Some(
                    Seq::new(
                        levels.len(),
                        |i: int|
                            (
                                decimal(i as nat),
                                "level "@ + decimal(i as nat) + ": "@ + rendered(levels[i]),
                            ),
                    ),
                )
            },
            _ => None,
        },
        QType::Noul => Some(
            seq![
                (
                    "false"@,
                    side(q.criteria, "false"@, "no, the statement does not hold"@),
                ),
                ("true"@, side(q.criteria, "true"@, "yes, the statement holds"@)),
            ],
        ),
    }
}

/// What is wrong with a question whose criteria do not fit its kind.
pub open spec fn misfit(q: Asked, id: Seq<char>) -> Failure {
    Failure::Question {
        id,
        message: if q.kind == QType::Choice {
            "a choice question needs `criteria`: either a map of label -> description or a list of labels"@
        } else {
            "a score question needs `criteria`: a non-empty list of ordered level descriptions"@
        },
    }
}

/// The instructions as the model sees them.
pub open spec fn instructions_of(q: Asked) -> Seq<char> {
    rendered_instructions(q.instructions)
}

/// The texts of a list of pairs of strings.
pub open spec fn pair_texts(v: Seq<(String, String)>) -> Seq<(Seq<char>, Seq<char>)> {
    Seq::new(v.len(), |i: int| (v[i].0@, v[i].1@))
}

/// The first of each pair.
pub open spec fn firsts(v: Seq<(Seq<char>, Seq<char>)>) -> Seq<Seq<char>> {
    Seq::new(v.len(), |i: int| v[i].0)
}

/// The second of each pair.
pub open spec fn seconds(v: Seq<(Seq<char>, Seq<char>)>) -> Seq<Seq<char>> {
    Seq::new(v.len(), |i: int| v[i].1)
}

fn blank(v: &Value) -> (r: bool)
    ensures
        r == is_blank(v@),
{
    match v {
        Value::Null => true,
        Value::String(s) => s.as_str().is_empty(),
        _ => false,
    }
}

fn side_text(criteria: &Option<Value>, key: &str, generic: &str) -> (r: String)
    ensures
        r@ == side(optional(*criteria), key@, generic@),
{
    let given = match criteria {
        Some(c) => c.get(key),
        None => None,
    };
    match given {
        Some(v) => if blank(v) {
            concat3(key, ": ", generic)
        } else {
            concat3(key, ": ", render(v).as_str())
        },
        None => concat3(key, ": ", generic),
    }
}

impl Question {
    /// Start a `choice` question; add labels with [`ChoiceBuilder::option`].
    pub fn choice(instructions: &str) -> (r: ChoiceBuilder)
        ensures
            r.asks() == (Asked {
                kind: QType::Choice,
                instructions: Json::Text(instructions@),
                criteria: Some(Json::Object(Seq::empty())),
            }),
    {
        let r = ChoiceBuilder { instructions: instructions.to_owned(), options: OrderedMap::new() };
        assert(r.fields() =~= Seq::empty());
        r
    }

    /// Start a `score` question; add ordered levels with [`ScoreBuilder::level`].
    pub fn score(instructions: &str) -> (r: ScoreBuilder)
        ensures
            r.asks() == (Asked {
                kind: QType::Score,
                instructions: Json::Text(instructions@),
                criteria: Some(Json::Array(Seq::empty())),
            }),
    {
        let r = ScoreBuilder { instructions: instructions.to_owned(), levels: Vec::new() };
        assert(r.items() =~= Seq::empty());
        r
    }

    /// A `noul` (boolean) question.
    pub fn noul(instructions: &str) -> (r: NoulBuilder)
        ensures
            r.question_text() == instructions@,
            r.wording() == (None::<Seq<char>>, None::<Seq<char>>),
    {
        NoulBuilder { instructions: instructions.to_owned(), when_true: None, when_false: None }
    }

    /// The instruction text as the model sees it: strings pass through, anything else is JSON with
    /// its non-ASCII characters escaped.
    pub fn instructions_text(&self) -> (r: String)
        ensures
            r@ == instructions_of(self@),
    {
        render_instructions(&self.instructions)
    }

    /// The labels and texts of the options, one pair per `[MASK]` marker, in marker order.
    pub fn options(&self, id: &str) -> (r: Result<Vec<(String, String)>, Error>)
        ensures
            match r {
                Ok(v) => options_of(self@) == Some(pair_texts(v@)),
                Err(e) => options_of(self@) is None && e@ == misfit(self@, id@),
            },
    {
        let mut out: Vec<(String, String)> = Vec::new();
        match self.kind {
            QType::Choice => match &self.criteria {
                Some(Value::Array(items)) => {
                    for i in 0..items.len()
                        invariant
                            out@.len() == i,
                            forall|j: int|
                                0 <= j < i ==> (#[trigger] out@[j]).0@ == rendered(items@[j]@)
                                    && out@[j].1@ == rendered(items@[j]@),
                    {
                        let text = render(&items[i]);
                        out.push((text.clone(), text));
                    }
                },
                Some(Value::Object(fields)) => {
                    for i in 0..fields.len()
                        invariant
                            out@.len() == i,
                            forall|j: int|
                                0 <= j < i ==> (#[trigger] out@[j]).0@ == fields@[j].0@
                                    && out@[j].1@ == labelled(fields@[j].0@, fields@[j].1@),
                    {
                        let key = fields[i].0.clone();
                        let text = if blank(&fields[i].1) {
                            key.clone()
                        } else {
                            concat3(key.as_str(), ": ", render(&fields[i].1).as_str())
                        };
                        out.push((key, text));
                    }
                },
                _ => {
                    return Err(
                        Error::question(
                            id,
                            "a choice question needs `criteria`: either a map of label -> description or a list of labels".to_owned(),
                        ),
                    );
                },
            },
            QType::Score => {
                let levels = self.score_levels(id)?;
                for i in 0..levels.len()
                    invariant
                        out@.len() == i,
                        forall|j: int|
                            0 <= j < i ==> (#[trigger] out@[j]).0@ == decimal(j as nat)
                                && out@[j].1@ == "level "@ + decimal(j as nat) + ": "@ + rendered(
                                levels@[j]@,
                            ),
                {
                    let number = decimal_text(i as u64);
                    let mut text = concat3("level ", number.as_str(), ": ");
                    text.append(render(&levels[i]).as_str());
                    out.push((number, text));
                }
            },
            QType::Noul => {
                out.push(
                    (
                        "false".to_owned(),
                        side_text(&self.criteria, "false", "no, the statement does not hold"),
                    ),
                );
                out.push(
                    (
                        "true".to_owned(),
                        side_text(&self.criteria, "true", "yes, the statement holds"),
                    ),
                );
            },
        }
        assert(pair_texts(out@) =~= options_of(self@)->0);
        Ok(out)
    }

    /// The labels an answer can carry, in marker order.
    ///
    /// `choice` returns its criterion keys, `score` the level indices as strings and `noul`
    /// `["false", "true"]`.
    pub fn labels(&self, id: &str) -> (r: Result<Vec<String>, Error>)
        ensures
            match r {
                Ok(v) => options_of(self@) is Some && texts(v@) == firsts(options_of(self@)->0),
                Err(e) => options_of(self@) is None && e@ == misfit(self@, id@),
            },
    {
        let pairs = self.options(id)?;
        let mut out: Vec<String> = Vec::new();
        for i in 0..pairs.len()
            invariant
                out@.len() == i,
                forall|j: int| 0 <= j < i ==> (#[trigger] out@[j])@ == pairs@[j].0@,
        {
            out.push(pairs[i].0.clone());
        }
        assert(texts(out@) =~= firsts(pair_texts(pairs@)));
        Ok(out)
    }

    /// The option texts, one per `[MASK]` marker, in label order.
    ///
    /// The exact strings matter, because they are tokenised into the sequence the model scores.
    pub fn render_options(&self, id: &str) -> (r: Result<Vec<String>, Error>)
        ensures
            match r {
                Ok(v) => options_of(self@) is Some && texts(v@) == seconds(options_of(self@)->0),
                Err(e) => options_of(self@) is None && e@ == misfit(self@, id@),
            },
    {
        let pairs = self.options(id)?;
        let mut out: Vec<String> = Vec::new();
        for i in 0..pairs.len()
            invariant
                out@.len() == i,
                forall|j: int| 0 <= j < i ==> (#[trigger] out@[j])@ == pairs@[j].1@,
        {
            out.push(pairs[i].1.clone());
        }
        assert(texts(out@) =~= seconds(pair_texts(pairs@)));
        Ok(out)
    }

    /// The ordered levels of a score question.
    pub fn score_levels(&self, id: &str) -> (r: Result<&Vec<Value>, Error>)
        ensures
            match r {
                Ok(v) => self.criteria == Some(Value::Array(*v)) && v@.len() > 0,
                Err(e) => e@ == (Failure::Question {
                    id: id@,
                    message: "a score question needs `criteria`: a non-empty list of ordered level descriptions"@,
                }) && !(optional(self.criteria) matches Some(Json::Array(items)) && items.len()
                    > 0),
            },
    {
        match &self.criteria {
            Some(Value::Array(items)) if items.len() > 0 => Ok(items),
            _ => Err(
                Error::question(
                    id,
                    "a score question needs `criteria`: a non-empty list of ordered level descriptions".to_owned(),
                ),
            ),
        }
    }
}

// ----------------------------------------------------------------------- builders

/// Anything that can stand where a question is wanted.
pub trait Askable: Sized {
    /// The question this becomes.
    spec fn asks(&self) -> Asked;

    /// The question itself.
    fn into_question(self) -> (q: Question)
        ensures
            q@ == self.asks(),
    ;
}

impl Askable for Question {
    open spec fn asks(&self) -> Asked {
        self@
    }

    fn into_question(self) -> (q: Question) {
        self
    }
}

/// Builder for a [`QType::Choice`] question.
pub struct ChoiceBuilder {
    instructions: String,
    options: OrderedMap<Option<String>>,
}

/// A description as a criterion.
pub open spec fn description_json(d: Option<String>) -> Json {
    match d {
        Some(s) => Json::Text(s@),
        None => Json::Null,
    }
}

impl ChoiceBuilder {
    /// The instructions so far.
    pub closed spec fn question_text(&self) -> Seq<char> {
        self.instructions@
    }

    /// The criteria so far.
    pub closed spec fn fields(&self) -> Seq<(Seq<char>, Json)> {
        mapped(self.options@, |d: Option<String>| description_json(d))
    }

    /// Add a label with a description of when it applies.
    pub fn option(self, label: &str, description: &str) -> (r: Self)
        ensures
            r.question_text() == self.question_text(),
            r.fields() == put(self.fields(), label@, Json::Text(description@)),
    {
        let given = Some(description.to_owned());
        proof {
            lemma_put_mapped(
                self.options@,
                |d: Option<String>| description_json(d),
                label@,
                given,
            );
        }
        ChoiceBuilder { instructions: self.instructions, options: self.options.with(label, given) }
    }

    /// Add a label that speaks for itself.
    pub fn bare_option(self, label: &str) -> (r: Self)
        ensures
            r.question_text() == self.question_text(),
            r.fields() == put(self.fields(), label@, Json::Null),
    {
        proof {
            lemma_put_mapped(
                self.options@,
                |d: Option<String>| description_json(d),
                label@,
                None,
            );
        }
        ChoiceBuilder { instructions: self.instructions, options: self.options.with(label, None) }
    }
}

impl Askable for ChoiceBuilder {
    open spec fn asks(&self) -> Asked {
        Asked {
            kind: QType::Choice,
            instructions: Json::Text(self.question_text()),
            criteria: Some(Json::Object(self.fields())),
        }
    }

    fn into_question(self) -> (q: Question) {
        let mut out: Vec<(String, Value)> = Vec::new();
        let ghost fields = self.fields();
        let n: usize = self.options.len();
        for i in 0..n
            invariant
                fields == self.fields(),
                n == self.options@.len(),
                out@.len() == i,
                forall|j: int|
                    0 <= j < i ==> (#[trigger] out@[j]).0@ == fields[j].0 && out@[j].1@
                        == fields[j].1,
        {
            let (label, description) = self.options.at(i);
            let criterion = match description {
                Some(s) => Value::String(s.clone()),
                None => Value::Null,
            };
            out.push((label.to_owned(), criterion));
        }
        let criteria = Value::Object(out);
        assert(criteria@->Object_0 =~= fields);
        Question {
            kind: QType::Choice,
            instructions: Value::String(self.instructions),
            criteria: Some(criteria),
        }
    }
}

/// Builder for a [`QType::Score`] question.
pub struct ScoreBuilder {
    instructions: String,
    levels: Vec<String>,
}

impl ScoreBuilder {
    /// The instructions so far.
    pub closed spec fn question_text(&self) -> Seq<char> {
        self.instructions@
    }

    /// The levels so far.
    pub closed spec fn items(&self) -> Seq<Json> {
        Seq::new(self.levels@.len(), |i: int| Json::Text(self.levels@[i]@))
    }

    /// Append the next level. Levels are ordered from 0 upwards.
    pub fn level(self, description: &str) -> (r: Self)
        ensures
            r.question_text() == self.question_text(),
            r.items() == self.items().push(Json::Text(description@)),
    {
        let mut levels = self.levels;
        levels.push(description.to_owned());
        let r = ScoreBuilder { instructions: self.instructions, levels };
        assert(r.items() =~= self.items().push(Json::Text(description@)));
        r
    }
}

impl Askable for ScoreBuilder {
    open spec fn asks(&self) -> Asked {
        Asked {
            kind: QType::Score,
            instructions: Json::Text(self.question_text()),
            criteria: Some(Json::Array(self.items())),
        }
    }

    fn into_question(self) -> (q: Question) {
        let mut out: Vec<Value> = Vec::new();
        let ghost items = self.items();
        for i in 0..self.levels.len()
            invariant
                items == self.items(),
                out@.len() == i,
                forall|j: int| 0 <= j < i ==> (#[trigger] out@[j])@ == items[j],
        {
            out.push(Value::String(self.levels[i].clone()));
        }
        let criteria = Value::Array(out);
        assert(criteria@->Array_0 =~= items);
        Question {
            kind: QType::Score,
            instructions: Value::String(self.instructions),
            criteria: Some(criteria),
        }
    }
}

/// Builder for a [`QType::Noul`] question.
pub struct NoulBuilder {
    instructions: String,
    when_true: Option<String>,
    when_false: Option<String>,
}

/// An optional text, mathematically.
pub open spec fn optional_text(s: Option<String>) -> Option<Seq<char>> {
    match s {
        Some(s) => Some(s@),
        None => None,
    }
}

/// The criteria of a boolean question with this wording for true and for false.
pub open spec fn noul_criteria(
    when_true: Option<Seq<char>>,
    when_false: Option<Seq<char>>,
) -> Option<Json> {
    match (when_true, when_false) {
        (None, None) => None,
        (None, Some(f)) => Some(Json::Object(seq![("false"@, Json::Text(f))])),
        (Some(t), None) => Some(Json::Object(seq![("true"@, Json::Text(t))])),
        (Some(t), Some(f)) => Some(
            Json::Object(seq![("false"@, Json::Text(f)), ("true"@, Json::Text(t))]),
        ),
    }
}

impl NoulBuilder {
    /// The instructions.
    pub closed spec fn question_text(&self) -> Seq<char> {
        self.instructions@
    }

    /// The wording for true and for false, where it was given.
    pub closed spec fn wording(&self) -> (Option<Seq<char>>, Option<Seq<char>>) {
        (optional_text(self.when_true), optional_text(self.when_false))
    }

    /// Describe what "true" means, instead of the generic wording.
    pub fn when_true(self, description: &str) -> (r: Self)
        ensures
            r.question_text() == self.question_text(),
            r.wording() == (Some(description@), self.wording().1),
    {
        NoulBuilder {
            instructions: self.instructions,
            when_true: Some(description.to_owned()),
            when_false: self.when_false,
        }
    }

    /// Describe what "false" means, instead of the generic wording.
    pub fn when_false(self, description: &str) -> (r: Self)
        ensures
            r.question_text() == self.question_text(),
            r.wording() == (self.wording().0, Some(description@)),
    {
        NoulBuilder {
            instructions: self.instructions,
            when_true: self.when_true,
            when_false: Some(description.to_owned()),
        }
    }
}

impl Askable for NoulBuilder {
    open spec fn asks(&self) -> Asked {
        Asked {
            kind: QType::Noul,
            instructions: Json::Text(self.question_text()),
            criteria: noul_criteria(self.wording().0, self.wording().1),
        }
    }

    fn into_question(self) -> (q: Question) {
        let ghost wanted = noul_criteria(self.wording().0, self.wording().1);
        let mut out: Vec<(String, Value)> = Vec::new();
        if let Some(f) = self.when_false {
            let wording = Value::String(f);
            assert(wording@ == Json::Text(f@));
            out.push(("false".to_owned(), wording));
        }
        if let Some(t) = self.when_true {
            let wording = Value::String(t);
            assert(wording@ == Json::Text(t@));
            out.push(("true".to_owned(), wording));
        }
        let empty = out.len() == 0;
        let object = Value::Object(out);
        assert(wanted is Some ==> object@->Object_0 =~= (wanted->0)->Object_0);
        let criteria = if empty {
            None
        } else {
            Some(object)
        };
        Question {
            kind: QType::Noul,
            instructions: Value::String(self.instructions),
            criteria,
        }
    }
}

impl From<ChoiceBuilder> for Question {
    fn from(b: ChoiceBuilder) -> (q: Question)
        ensures
            q@ == b.asks(),
    {
        b.into_question()
    }
}

impl FromSpecImpl<ChoiceBuilder> for Question {
    open spec fn obeys_from_spec() -> bool {
        false
    }

    open spec fn from_spec(b: ChoiceBuilder) -> Question {
        arbitrary()
    }
}

impl From<ScoreBuilder> for Question {
    fn from(b: ScoreBuilder) -> (q: Question)
        ensures
            q@ == b.asks(),
    {
        b.into_question()
    }
}

impl FromSpecImpl<ScoreBuilder> for Question {
    open spec fn obeys_from_spec() -> bool {
        false
    }

    open spec fn from_spec(b: ScoreBuilder) -> Question {
        arbitrary()
    }
}

impl From<NoulBuilder> for Question {
    fn from(b: NoulBuilder) -> (q: Question)
        ensures
            q@ == b.asks(),
    {
        b.into_question()
    }
}

impl FromSpecImpl<NoulBuilder> for Question {
    open spec fn obeys_from_spec() -> bool {
        false
    }

    open spec fn from_spec(b: NoulBuilder) -> Question {
        arbitrary()
    }
}

// ----------------------------------------------------------------------- question sets

/// An ordered set of questions, answered together in one forward pass.
///
/// Order is preserved end to end: it is the order the answers come back in, and questions are
/// batched as rows in the order they were inserted.
#[derive(Debug)]
pub struct Questions(OrderedMap<Question>);

impl Questions {
    /// The questions with their ids, in order.
    pub closed spec fn asked(&self) -> Seq<(Seq<char>, Asked)> {
        mapped(self.0@, |q: Question| q@)
    }
}

/// The questions of a list of pairs.
pub open spec fn collected(pairs: Seq<(String, Question)>) -> Seq<(Seq<char>, Asked)>
    decreases pairs.len(),
{
    if pairs.len() == 0 {
        Seq::empty()
    } else {
        put(collected(pairs.drop_last()), pairs.last().0@, pairs.last().1@)
    }
}

impl View for Questions {
    type V = Seq<(Seq<char>, Asked)>;

    open spec fn view(&self) -> Seq<(Seq<char>, Asked)> {
        self.asked()
    }
}

impl Default for Questions {
    /// No questions.
    fn default() -> (r: Self)
        ensures
            r@ == Seq::<(Seq<char>, Asked)>::empty(),
    {
        Questions::new()
    }
}

impl Clone for Questions {
    fn clone(&self) -> (r: Questions)
        ensures
            r@ == self@,
    {
        let mut out = Questions::new();
        let n: usize = self.len();
        assert(self@.take(0) =~= Seq::empty());
        for i in 0..n
            invariant
                n == self@.len(),
                distinct_keys(self@),
                out@ == self@.take(i as int),
        {
            let (id, q) = self.at(i);
            proof {
                assert forall|j: int| 0 <= j < i implies (#[trigger] self@.take(i as int)[j]).0
                    != id@ by {
                    assert(self@[j].0 != self@[i as int].0);
                }
                lemma_put_fresh(self@.take(i as int), id@, q@);
                assert(self@.take(i + 1) =~= self@.take(i as int).push(self@[i as int]));
            }
            out = out.with(id, q.clone());
        }
        assert(self@.take(n as int) =~= self@);
        out
    }
}

impl Questions {
    /// No questions.
    pub fn new() -> (r: Self)
        ensures
            r@ == Seq::<(Seq<char>, Asked)>::empty(),
    {
        let r = Questions(OrderedMap::new());
        assert(r@ =~= Seq::empty());
        r
    }

    /// Add a question under `id`, replacing any question already there.
    pub fn with<Q: Askable>(self, id: &str, q: Q) -> (r: Self)
        ensures
            r@ == put(self@, id@, q.asks()),
    {
        let question = q.into_question();
        proof {
            lemma_put_mapped(self.0@, |q: Question| q@, id@, question);
        }
        Questions(self.0.with(id, question))
    }

    /// Add a question under `id` in place.
    pub fn insert<Q: Askable>(&mut self, id: &str, q: Q) -> (r: &mut Self)
        ensures
            r@ == put(old(self)@, id@, q.asks()),
            *final(self) == *final(r),
    {
        let question = q.into_question();
        proof {
            lemma_put_mapped(self.0@, |q: Question| q@, id@, question);
        }
        self.0.insert(id, question);
        self
    }

    /// The questions of a list of pairs; a later question replaces an earlier one under its id.
    pub fn from_pairs(pairs: Vec<(String, Question)>) -> (r: Self)
        ensures
            r@ == collected(pairs@),
    {
        let ghost all = pairs@;
        let mut out = Questions::new();
        let mut rest = pairs;
        let ghost mut done: int = 0;
        assert(all.skip(0) =~= all);
        assert(out@ =~= collected(all.take(0)));
        while rest.len() > 0
            invariant
                0 <= done <= all.len(),
                rest@ == all.skip(done),
                out@ == collected(all.take(done)),
            decreases rest@.len(),
        {
            let (id, q) = rest.remove(0);
            out = out.with(id.as_str(), q);
            proof {
                assert(all.take(done + 1).drop_last() =~= all.take(done));
                assert(all.skip(done).remove(0) =~= all.skip(done + 1));
                done = done + 1;
            }
        }
        assert(all.take(all.len() as int) =~= all);
        out
    }

    /// The ids of the questions, in order.
    pub fn keys(&self) -> (r: Vec<String>)
        ensures
            texts(r@) == keys_of(self@),
    {
        let mut out: Vec<String> = Vec::new();
        let n: usize = self.0.len();
        for i in 0..n
            invariant
                n == self.0@.len(),
                out@.len() == i,
                forall|j: int| 0 <= j < i ==> (#[trigger] out@[j])@ == self.0@[j].0,
        {
            out.push(self.0.at(i).0.to_owned());
        }
        assert(texts(out@) =~= keys_of(self@));
        out
    }

    /// The number of questions. No two of them have the same id.
    pub fn len(&self) -> (r: usize)
        ensures
            r == self@.len(),
            distinct_keys(self@),
    {
        let n: usize = self.0.len();
        assert(distinct_keys(self@)) by {
            assert forall|i: int, j: int| 0 <= i < j < self@.len() implies (#[trigger] self@[i]).0
                != (#[trigger] self@[j]).0 by {
                assert(self.0@[i].0 != self.0@[j].0);
            }
        }
        n
    }

    /// Whether there is no question.
    pub fn is_empty(&self) -> (r: bool)
        ensures
            r == (self@.len() == 0),
    {
        self.0.is_empty()
    }

    /// The question at position `i`, with its id.
    pub fn at(&self, i: usize) -> (r: (&str, &Question))
        requires
            i < self@.len(),
        ensures
            (r.0@, r.1@) == self@[i as int],
    {
        self.0.at(i)
    }

    /// The question under `id`.
    pub fn get(&self, id: &str) -> (r: Option<&Question>)
        ensures
            match r {
                Some(q) => lookup(self@, id@) == Some(q@),
                None => lookup(self@, id@) is None,
            },
    {
        proof {
            lemma_lookup_mapped(self.0@, |q: Question| q@, id@);
        }
        self.0.get(id)
    }
}

// ----------------------------------------------------------------------- laws

/// The three kinds by their names and by their numbers.
pub proof fn law_kinds()
    ensures
        kind_name(QType::Choice) == "choice"@,
        kind_name(QType::Score) == "score"@,
        kind_name(QType::Noul) == "noul"@,
        kind_index(QType::Choice) == 0,
        kind_index(QType::Score) == 1,
        kind_index(QType::Noul) == 2,
{
}

/// The options of a choice are the labels it lists, in their order, each with the label as its text,
/// followed by its description where it has one. A choice without a list or a map of labels has none.
pub proof fn law_options_of_a_choice(q: Asked, i: int)
    requires
        q.kind == QType::Choice,
    ensures
        options_of(q) is Some <==> (q.criteria matches Some(c) && (c is Array || c is Object)),
        q.criteria matches Some(Json::Array(items)) ==> {
            let options = options_of(q)->0;
            &&& options.len() == items.len()
            &&& 0 <= i < items.len() ==> (items[i] matches Json::Text(s) ==> options[i] == (s, s))
            &&& 0 <= i < items.len() ==> options[i].0 == options[i].1
        },
        q.criteria matches Some(Json::Object(fields)) ==> {
            let options = options_of(q)->0;
            &&& options.len() == fields.len()
            &&& 0 <= i < fields.len() ==> options[i].0 == fields[i].0
            &&& 0 <= i < fields.len() && fields[i].1 is Null ==> options[i].1 == fields[i].0
            &&& 0 <= i < fields.len() ==> (fields[i].1 matches Json::Text(s) ==> options[i].1
                == if s.len() == 0 {
                fields[i].0
            } else {
                fields[i].0 + seq![':', ' '] + s
            })
            &&& 0 <= i < fields.len() && !(fields[i].1 is Text) && !(fields[i].1 is Null)
                ==> options[i].1 == fields[i].0 + seq![':', ' '] + dumped(fields[i].1, false)
        },
{
    reveal_strlit(": ");
    assert(": "@ =~= seq![':', ' ']);
}

/// The options of a score are its levels, numbered from zero in their order, each with its number and
/// its description as its text. Only a score with at least one level has any.
pub proof fn law_options_of_a_score(q: Asked, i: int, j: int)
    requires
        q.kind == QType::Score,
    ensures
        options_of(q) is Some <==> (q.criteria matches Some(Json::Array(levels)) && levels.len()
            > 0),
        options_of(q) is Some ==> {
            let levels = (q.criteria->0)->Array_0;
            let options = options_of(q)->0;
            &&& options.len() == levels.len()
            &&& 0 <= i < levels.len() ==> {
                &&& all_digits(options[i].0) && digits_value(options[i].0) == i
                &&& levels[i] matches Json::Text(s) ==> options[i].1 == "level "@ + options[i].0
                    + ": "@ + s
                &&& !(levels[i] is Text) ==> options[i].1 == "level "@ + options[i].0 + ": "@
                    + dumped(levels[i], false)
            }
            &&& 0 <= i < j < levels.len() ==> options[i].0 != options[j].0
        },
{
    if 0 <= i {
        lemma_decimal(i as nat);
    }
    if 0 <= j {
        lemma_decimal(j as nat);
    }
}

/// A boolean question always has two options, false before true. Each reads as it was described, and
/// generically where it was not or the description is empty.
pub proof fn law_options_of_a_boolean(q: Asked, s: Seq<char>)
    requires
        q.kind == QType::Noul,
    ensures
        options_of(q) is Some,
        ({
            let options = options_of(q)->0;
            let no = match q.criteria {
                Some(Json::Object(fields)) => lookup(fields, "false"@),
                _ => None,
            };
            let yes = match q.criteria {
                Some(Json::Object(fields)) => lookup(fields, "true"@),
                _ => None,
            };
            &&& options.len() == 2
            &&& options[0].0 == "false"@
            &&& options[1].0 == "true"@
            &&& no == Some(Json::Text(s)) && s.len() > 0 ==> options[0].1 == "false: "@ + s
            &&& yes == Some(Json::Text(s)) && s.len() > 0 ==> options[1].1 == "true: "@ + s
            &&& no is None || no == Some(Json::Null) || (no == Some(Json::Text(s)) && s.len() == 0)
                ==> options[0].1 == "false: no, the statement does not hold"@
            &&& yes is None || yes == Some(Json::Null) || (yes == Some(Json::Text(s)) && s.len()
                == 0) ==> options[1].1 == "true: yes, the statement holds"@
        }),
{
    reveal_strlit("false");
    reveal_strlit("true");
    reveal_strlit(": ");
    reveal_strlit("false: ");
    reveal_strlit("true: ");
    reveal_strlit("no, the statement does not hold");
    reveal_strlit("yes, the statement holds");
    reveal_strlit("false: no, the statement does not hold");
    reveal_strlit("true: yes, the statement holds");
    assert("false"@ + ": "@ =~= "false: "@);
    assert("true"@ + ": "@ =~= "true: "@);
    assert("false: "@ + "no, the statement does not hold"@
        =~= "false: no, the statement does not hold"@);
    assert("true: "@ + "yes, the statement holds"@ =~= "true: yes, the statement holds"@);
}

/// The wording that a boolean question is built with is the wording of its options: what was said of
/// true stands under true and what was said of false under false.
pub proof fn law_wording_of_a_boolean(
    instructions: Json,
    when_true: Option<Seq<char>>,
    when_false: Option<Seq<char>>,
)
    requires
        when_true matches Some(t) ==> t.len() > 0,
        when_false matches Some(f) ==> f.len() > 0,
    ensures
        ({
            let q = Asked {
                kind: QType::Noul,
                instructions,
                criteria: noul_criteria(when_true, when_false),
            };
            let options = options_of(q)->0;
            &&& when_true matches Some(t) ==> options[1].1 == "true: "@ + t
            &&& when_true is None ==> options[1].1 == "true: yes, the statement holds"@
            &&& when_false matches Some(f) ==> options[0].1 == "false: "@ + f
            &&& when_false is None ==> options[0].1 == "false: no, the statement does not hold"@
            &&& when_true is None && when_false is None ==> q.criteria is None
        }),
{
    let q = Asked { kind: QType::Noul, instructions, criteria: noul_criteria(when_true, when_false) };
    reveal_strlit("false");
    reveal_strlit("true");
    assert("false"@.len() == 5 && "true"@.len() == 4);
    reveal_with_fuel(find_key, 3);
    law_options_of_a_boolean(q, if when_true is Some { when_true->0 } else { Seq::empty() });
    law_options_of_a_boolean(q, if when_false is Some { when_false->0 } else { Seq::empty() });
}

/// The instructions of a question are their own text, or all of their JSON.
pub proof fn law_instructions_are_whole(q: Asked)
    ensures
        instructions_of(q) == match q.instructions {
            Json::Text(s) => s,
            _ => dumped(q.instructions, true),
        },
{
}

/// A question that cannot be laid out is blamed by its own id, and in the words of its kind.
pub proof fn law_misfits_name_their_question(q: Asked, id: Seq<char>)
    requires
        options_of(q) is None,
    ensures
        q.kind != QType::Noul,
        misfit(q, id) is Question,
        (misfit(q, id))->Question_id == id,
        q.kind == QType::Choice ==> (misfit(q, id))->Question_message
            == "a choice question needs `criteria`: either a map of label -> description or a list of labels"@,
        q.kind == QType::Score ==> (misfit(q, id))->Question_message
            == "a score question needs `criteria`: a non-empty list of ordered level descriptions"@,
{
}

/// Of the questions in a list, the last one under an id is the one that is asked, and no question of
/// another id is touched by it.
pub proof fn law_later_questions_replace_earlier_ones(
    pairs: Seq<(String, Question)>,
    last: (String, Question),
    other: Seq<char>,
)
    requires
        other != last.0@,
    ensures
        lookup(collected(pairs.push(last)), last.0@) == Some(last.1@),
        lookup(collected(pairs.push(last)), other) == lookup(collected(pairs), other),
        collected(Seq::<(String, Question)>::empty()).len() == 0,
{
    assert(pairs.push(last).drop_last() =~= pairs);
    law_what_is_put_is_found(collected(pairs), last.0@, last.1@, other);
}

/// The labels of some options are the first of each pair and their texts the second, place by place.
pub proof fn law_labels_and_texts(options: Seq<(Seq<char>, Seq<char>)>, i: int)
    ensures
        firsts(options).len() == options.len(),
        seconds(options).len() == options.len(),
        0 <= i < options.len() ==> (firsts(options)[i], seconds(options)[i]) == options[i],
{
}

// ----------------------------------------------------------------------- what callers are given

/// A caller is given the labels and the texts of a question's options, or the complaint that it has none.
pub proof fn law_given_options(
    q: &Question,
    id: &str,
    options: Result<Vec<(String, String)>, Error>,
    labels: Result<Vec<String>, Error>,
    shown: Result<Vec<String>, Error>,
    instructions: String,
)
    requires
        call_ensures(Question::options, (q, id), options),
        call_ensures(Question::labels, (q, id), labels),
        call_ensures(Question::render_options, (q, id), shown),
        call_ensures(Question::instructions_text, (q,), instructions),
    ensures
        options is Ok <==> options_of(q@) is Some,
        labels is Ok <==> options_of(q@) is Some,
        shown is Ok <==> options_of(q@) is Some,
        options matches Ok(v) ==> pair_texts(v@) == options_of(q@)->0,
        labels matches Ok(v) ==> texts(v@) == firsts(options_of(q@)->0),
        shown matches Ok(v) ==> texts(v@) == seconds(options_of(q@)->0),
        options matches Err(e) ==> e@ == misfit(q@, id@),
        instructions@ == instructions_of(q@),
{
}

} // verus!
