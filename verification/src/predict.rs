//! One prediction, from its state and questions to its answers.
//!
//! The questions are encoded over one state and batched; the model scores the batch; and what the
//! scores come to is read off, question by question, into answers.

use vstd::prelude::*;
use vstd::string::*;

use crate::answer::{answers_of, legend_of, Action, Answer, Answered, Prediction, Usage};
use crate::error::{Error, Failure};
use crate::float::{less, not_a_number, Float};
use crate::json::{Json, Value};
use crate::ordered::{
    distinct_keys, keys_of, law_what_is_put_is_found, lemma_put_distinct, lemma_put_fresh,
    lemma_put_mapped, lookup, put, OrderedMap,
};
use crate::pyjson::{
    alike, dumped, is_written_out, law_arrays_are_shown_whole,
    law_different_values_are_written_differently, law_objects_are_shown_whole, render, rendered,
    string_literal,
};
use crate::question::{firsts, misfit, options_of, Asked, QType, Question, Questions};
use crate::sequence::{
    builds, can_lay_out, first_budget, is_batch_of, law_built_items_are_well_laid_out, settles,
    Batch, Encoded, Encoder, Item,
};
use crate::text::{occurs_in, texts};
use crate::tokenizer::is_runnable;

verus! {

// ----------------------------------------------------------------------- before the model

/// The encoded questions of a prediction, one by one and as a batch.
pub struct Prepared {
    pub items: Vec<Item>,
    pub batch: Batch,
}

/// Encoded questions, mathematically.
pub open spec fn encoded_of(items: Seq<Item>) -> Seq<Encoded> {
    Seq::new(items.len(), |i: int| items[i]@)
}

/// Whether the first questions can be encoded to these items.
pub open spec fn built(
    enc: Encoder,
    state: Seq<u32>,
    questions: Seq<(Seq<char>, Asked)>,
    items: Seq<Encoded>,
) -> bool {
    &&& items.len() <= questions.len()
    &&& forall|i: int|
        0 <= i < items.len() ==> builds(
            enc,
            state,
            questions[i].0,
            questions[i].1,
            Ok(#[trigger] items[i]),
        )
}

/// Whether encoding questions over an encoded state can come to this outcome: all of them, or the
/// first one that fails.
pub open spec fn builds_all(
    enc: Encoder,
    state: Seq<u32>,
    questions: Seq<(Seq<char>, Asked)>,
    outcome: Result<Seq<Encoded>, Failure>,
) -> bool {
    match outcome {
        Ok(items) => items.len() == questions.len() && built(enc, state, questions, items),
        Err(e) => exists|items: Seq<Encoded>|
            {
                &&& #[trigger] built(enc, state, questions, items)
                &&& items.len() < questions.len()
                &&& builds(
                    enc,
                    state,
                    questions[items.len() as int].0,
                    questions[items.len() as int].1,
                    Err(e),
                )
            },
    }
}

/// Whether a state's encoding can come to this answer.
pub open spec fn encodes_state(
    enc: Encoder,
    state: Json,
    answer: Result<Seq<u32>, Seq<char>>,
) -> bool {
    settles(
        enc.tok,
        enc.sp.mask_token@,
        enc.max_len as nat,
        rendered(state),
        first_budget(enc.max_len as nat),
        answer,
    )
}

/// Whether preparing a prediction can come to this outcome. Without questions there is nothing to
/// answer; the state is encoded first, then the questions in order.
pub open spec fn prepares(
    enc: Encoder,
    state: Json,
    questions: Seq<(Seq<char>, Asked)>,
    outcome: Result<Seq<Encoded>, Failure>,
) -> bool {
    if questions.len() == 0 {
        outcome == Err::<Seq<Encoded>, Failure>(Failure::NoQuestions)
    } else {
        exists|answer: Result<Seq<u32>, Seq<char>>| #[trigger]
            encodes_state(enc, state, answer) && match answer {
                Ok(ids) => builds_all(enc, ids, questions, outcome),
                Err(m) => outcome == Err::<Seq<Encoded>, Failure>(Failure::Tokenizer(m)),
            }
    }
}

/// The encoded questions of a preparation, or what went wrong with it.
pub open spec fn prepared_outcome(r: Result<Prepared, Error>) -> Result<Seq<Encoded>, Failure> {
    match r {
        Ok(p) => Ok(encoded_of(p.items@)),
        Err(e) => Err(e@),
    }
}

/// Encode every question over one state, and batch them.
pub fn prepare(enc: &Encoder, state: &Value, questions: &Questions) -> (r: Result<Prepared, Error>)
    requires
        is_runnable(enc.tok),
        first_budget(enc.max_len as nat) <= usize::MAX,
        forall|i: int|
            0 <= i < questions@.len() ==> can_lay_out(
                enc.head_max_len as nat,
                (#[trigger] questions@[i]).1,
            ),
    ensures
        prepares(*enc, state@, questions@, prepared_outcome(r)),
        !(state@ is Text) ==> prepares(
            *enc,
            Json::Text(dumped(state@, false)),
            questions@,
            prepared_outcome(r),
        ),
        r matches Ok(p) ==> is_batch_of(p.batch, p.items@, enc.sp.pad_id),
{
    if questions.is_empty() {
        return Err(Error::NoQuestions);
    }
    let ghost shown = if state@ is Text {
        state@
    } else {
        Json::Text(dumped(state@, false))
    };
    let state_ids = match enc.encode_state(render(state).as_str()) {
        Ok(ids) => ids,
        Err(e) => {
            assert(e is Tokenizer && encodes_state(*enc, state@, Err(e->Tokenizer_0@)));
            assert(encodes_state(*enc, shown, Err(e->Tokenizer_0@)));
            return Err(e);
        },
    };
    assert(encodes_state(*enc, state@, Ok(state_ids@)));
    assert(encodes_state(*enc, shown, Ok(state_ids@)));
    let mut items: Vec<Item> = Vec::new();
    let n: usize = questions.len();
    assert(encoded_of(items@) =~= Seq::empty());
    for i in 0..n
        invariant
            n == questions@.len() > 0,
            is_runnable(enc.tok),
            encodes_state(*enc, state@, Ok(state_ids@)),
            encodes_state(*enc, shown, Ok(state_ids@)),
            !(state@ is Text) ==> shown == Json::Text(dumped(state@, false)),
            forall|j: int|
                0 <= j < questions@.len() ==> can_lay_out(
                    enc.head_max_len as nat,
                    (#[trigger] questions@[j]).1,
                ),
            items@.len() == i,
            built(*enc, state_ids@, questions@, encoded_of(items@)),
    {
        let (id, q) = questions.at(i);
        assert(questions@[i as int] == (id@, q@));
        match enc.build(state_ids.as_slice(), id, q) {
            Ok(item) => {
                let ghost before = encoded_of(items@);
                items.push(item);
                assert(encoded_of(items@) =~= before.push(item@));
            },
            Err(e) => {
                assert(builds_all(*enc, state_ids@, questions@, Err(e@)));
                return Err(e);
            },
        }
    }
    assert(builds_all(*enc, state_ids@, questions@, Ok(encoded_of(items@))));
    let batch = enc.collate(&items);
    Ok(Prepared { items, batch })
}

// ----------------------------------------------------------------------- after the model

/// What the forward pass and the calibration come to for one question.
#[derive(Debug)]
pub struct Reading {
    /// The probability of each option.
    pub probabilities: Vec<Float>,
    /// The same, rounded to four decimals.
    pub rounded: Vec<Float>,
    /// For a score the expected level, rounded to four decimals.
    pub value: Float,
    /// The confidence, rounded to four decimals.
    pub confidence: Float,
    /// The action head's probability, rounded to four decimals.
    pub act_probability: Float,
}

/// Where the largest of some numbers is first.
pub open spec fn first_largest(p: Seq<Float>) -> int
    decreases p.len(),
{
    if p.len() <= 1 {
        0
    } else {
        let best = first_largest(p.drop_last());
        if less(p[best], p.last()) {
            p.len() - 1
        } else {
            best
        }
    }
}

/// Values under labels, in order; a label that comes again keeps its place and takes the later
/// value.
pub open spec fn under_labels<T>(labels: Seq<Seq<char>>, values: Seq<T>) -> Seq<(Seq<char>, T)>
    decreases labels.len(),
{
    if labels.len() == 0 {
        Seq::empty()
    } else {
        put(under_labels(labels.drop_last(), values), labels.last(), values[labels.len() - 1])
    }
}

/// The levels of a score question.
pub open spec fn levels_of(q: Asked) -> Seq<Json> {
    match q.criteria {
        Some(Json::Array(levels)) => levels,
        _ => Seq::empty(),
    }
}

/// The answer that a reading comes to.
pub open spec fn answer_to(
    id: Seq<char>,
    q: Asked,
    labels: Seq<Seq<char>>,
    reading: Reading,
) -> Result<Answered, Failure> {
    let action = Action { act_probability: reading.act_probability };
    match q.kind {
        QType::Choice => Ok(
            Answered::Choice {
                // The first of tied maxima.
                choice: labels[first_largest(reading.probabilities@)],
                probabilities: under_labels(labels, reading.rounded@),
                confidence: reading.confidence,
                action,
            },
        ),
        QType::Score => if levels_of(q).len() == 0 {
            Err(misfit(q, id))
        } else {
            Ok(
                Answered::Score {
                    score: reading.value,
                    legend: under_labels(
                        if labels.len() <= levels_of(q).len() {
                            labels
                        } else {
                            labels.take(levels_of(q).len() as int)
                        },
                        levels_of(q),
                    ),
                    probabilities: under_labels(labels, reading.rounded@),
                    confidence: reading.confidence,
                    action,
                },
            )
        },
        QType::Noul => Ok(
            // The probability of the second option, `true`.
            Answered::Noul { noul: reading.rounded@[1], confidence: reading.confidence, action },
        ),
    }
}

/// An answer, or what went wrong with it.
pub open spec fn answer_outcome(r: Result<Answer, Error>) -> Result<Answered, Failure> {
    match r {
        Ok(a) => Ok(a@),
        Err(e) => Err(e@),
    }
}

/// The first of tied maxima.
pub fn argmax(p: &Vec<Float>) -> (r: usize)
    requires
        p@.len() > 0,
    ensures
        r == first_largest(p@),
        r < p@.len(),
{
    let mut best: usize = 0;
    assert(first_largest(p@.take(1)) == 0);
    for i in 1..p.len()
        invariant
            p@.len() > 0,
            best < i,
            best == first_largest(p@.take(i as int)),
    {
        assert(p@.take(i + 1).drop_last() =~= p@.take(i as int));
        assert(p@.take(i + 1)[best as int] == p@[best as int]);
        if p[best].less_than(p[i]) {
            best = i;
        }
    }
    assert(p@.take(p@.len() as int) =~= p@);
    best
}

/// One rounded probability per label, in marker order.
pub fn distribution(labels: &Vec<String>, p: &Vec<Float>) -> (r: OrderedMap<Float>)
    requires
        labels@.len() <= p@.len(),
    ensures
        r@ == under_labels(texts(labels@), p@),
{
    let ghost all = texts(labels@);
    let mut out: OrderedMap<Float> = OrderedMap::new();
    assert(out@ =~= under_labels(all.take(0), p@));
    for i in 0..labels.len()
        invariant
            all == texts(labels@),
            labels@.len() <= p@.len(),
            out@ == under_labels(all.take(i as int), p@),
    {
        assert(all.take(i + 1).drop_last() =~= all.take(i as int));
        out.insert(labels[i].as_str(), p[i]);
    }
    assert(all.take(all.len() as int) =~= all);
    out
}

fn legend(labels: &Vec<String>, levels: &Vec<Value>) -> (r: OrderedMap<Value>)
    ensures
        ({
            let all = Seq::new(levels@.len(), |i: int| levels@[i]@);
            legend_of(r@) == under_labels(
                if labels@.len() <= levels@.len() {
                    texts(labels@)
                } else {
                    texts(labels@).take(levels@.len() as int)
                },
                all,
            )
        }),
{
    let ghost names = texts(labels@);
    let ghost all = Seq::new(levels@.len(), |i: int| levels@[i]@);
    let n: usize = if labels.len() <= levels.len() {
        labels.len()
    } else {
        levels.len()
    };
    let mut out: OrderedMap<Value> = OrderedMap::new();
    assert(legend_of(out@) =~= under_labels(names.take(0), all));
    for i in 0..n
        invariant
            n <= labels@.len(),
            n <= levels@.len(),
            names == texts(labels@),
            all == Seq::new(levels@.len(), |i: int| levels@[i]@),
            legend_of(out@) == under_labels(names.take(i as int), all),
    {
        assert(names.take(i + 1).drop_last() =~= names.take(i as int));
        let level = levels[i].clone();
        proof {
            lemma_put_mapped(out@, |v: Value| v@, labels@[i as int]@, level);
        }
        out.insert(labels[i].as_str(), level);
    }
    assert(names.take(names.len() as int) =~= names);
    out
}

/// Read one answer off what the model and the calibration gave.
pub fn answer(id: &str, q: &Question, labels: &Vec<String>, reading: &Reading) -> (r: Result<
    Answer,
    Error,
>)
    requires
        reading.probabilities@.len() == labels@.len(),
        reading.rounded@.len() == labels@.len(),
        q@.kind == QType::Choice ==> labels@.len() > 0,
        q@.kind == QType::Noul ==> labels@.len() > 1,
    ensures
        answer_outcome(r) == answer_to(id@, q@, texts(labels@), *reading),
        q@.kind == QType::Choice && (forall|j: int|
            0 <= j < labels@.len() ==> !not_a_number(#[trigger] reading.probabilities@[j]))
            ==> (r matches Ok(Answer::Choice { choice, .. }) && exists|k: int|
            #![trigger labels@[k]]
            {
                &&& 0 <= k < labels@.len()
                &&& choice@ == labels@[k]@
                &&& forall|j: int|
                    0 <= j < labels@.len() ==> !less(
                        reading.probabilities@[k],
                        #[trigger] reading.probabilities@[j],
                    )
                &&& forall|j: int|
                    0 <= j < k ==> less(
                        #[trigger] reading.probabilities@[j],
                        reading.probabilities@[k],
                    )
            }),
{
    proof {
        let names = texts(labels@);
        if q@.kind == QType::Choice && (forall|j: int|
            0 <= j < names.len() ==> !not_a_number(#[trigger] reading.probabilities@[j])) {
            law_choice_answer_is_the_most_probable_label(id@, q@, names, *reading);
            let k = choose|k: int|
                #![trigger names[k]]
                {
                    &&& 0 <= k < names.len()
                    &&& answer_to(id@, q@, names, *reading)->Ok_0->choice == names[k]
                    &&& forall|j: int|
                        0 <= j < names.len() ==> !less(
                            reading.probabilities@[k],
                            #[trigger] reading.probabilities@[j],
                        )
                    &&& forall|j: int|
                        0 <= j < k ==> less(
                            #[trigger] reading.probabilities@[j],
                            reading.probabilities@[k],
                        )
                };
            assert(labels@[k]@ == names[k]);
        }
    }
    let action = Action { act_probability: reading.act_probability };
    match q.kind {
        QType::Choice => {
            let best: usize = argmax(&reading.probabilities);
            Ok(
                Answer::Choice {
                    choice: labels[best].clone(),
                    probabilities: distribution(labels, &reading.rounded),
                    confidence: reading.confidence,
                    action,
                },
            )
        },
        QType::Score => {
            let levels = match q.score_levels(id) {
                Ok(levels) => levels,
                Err(e) => return Err(e),
            };
            assert(levels_of(q@) =~= Seq::new(levels@.len(), |i: int| levels@[i]@));
            Ok(
                Answer::Score {
                    score: reading.value,
                    legend: legend(labels, levels),
                    probabilities: distribution(labels, &reading.rounded),
                    confidence: reading.confidence,
                    action,
                },
            )
        },
        QType::Noul => Ok(
            Answer::Noul { noul: reading.rounded[1], confidence: reading.confidence, action },
        ),
    }
}

/// The answer to the `i`-th question.
pub open spec fn answer_at(
    questions: Seq<(Seq<char>, Asked)>,
    items: Seq<Item>,
    readings: Seq<Reading>,
    i: int,
) -> Result<Answered, Failure> {
    answer_to(questions[i].0, questions[i].1, texts(items[i].labels@), readings[i])
}

/// The first question from the `i`-th on that has no answer, by what went wrong with it.
pub open spec fn unanswered_from(
    questions: Seq<(Seq<char>, Asked)>,
    items: Seq<Item>,
    readings: Seq<Reading>,
    i: int,
) -> Option<Failure>
    decreases questions.len() - i,
{
    if i >= questions.len() {
        None
    } else {
        match answer_at(questions, items, readings, i) {
            Err(e) => Some(e),
            Ok(_) => unanswered_from(questions, items, readings, i + 1),
        }
    }
}

/// The answers to all questions, in the order the questions were given.
pub open spec fn all_answers(
    questions: Seq<(Seq<char>, Asked)>,
    items: Seq<Item>,
    readings: Seq<Reading>,
) -> Seq<(Seq<char>, Answered)> {
    Seq::new(
        questions.len(),
        |i: int| (questions[i].0, answer_at(questions, items, readings, i)->Ok_0),
    )
}

/// Whether a reading has a probability for every option, a choice an option, and a boolean its two.
pub open spec fn fits(q: Asked, item: Item, reading: Reading) -> bool {
    &&& reading.probabilities@.len() == item.labels@.len()
    &&& reading.rounded@.len() == item.labels@.len()
    &&& q.kind == QType::Choice ==> item.labels@.len() > 0
    &&& q.kind == QType::Noul ==> item.labels@.len() > 1
}

/// The runtime that predictions name.
pub const RUNTIME: &'static str = "laya-rl-agent";

/// Read every answer off, in the order the questions were given.
pub fn conclude(prepared: &Prepared, questions: &Questions, readings: &Vec<Reading>) -> (r: Result<
    Prediction,
    Error,
>)
    requires
        prepared.items@.len() == questions@.len(),
        readings@.len() == questions@.len(),
        forall|i: int|
            0 <= i < questions@.len() ==> fits(
                (#[trigger] questions@[i]).1,
                prepared.items@[i],
                readings@[i],
            ),
    ensures
        match r {
            Ok(p) => {
                &&& unanswered_from(questions@, prepared.items@, readings@, 0) is None
                &&& answers_of(p.answers@) == all_answers(questions@, prepared.items@, readings@)
                &&& p.model@ == RUNTIME@
                &&& p.model@ == "laya-rl-agent"@
                &&& p.usage == (Usage { input_tokens: prepared.batch.n_tokens, output_tokens: 0 })
                &&& p.routing is None
            },
            Err(e) => unanswered_from(questions@, prepared.items@, readings@, 0) == Some(e@),
        },
{
    let ghost qs = questions@;
    let ghost items = prepared.items@;
    let ghost all = all_answers(qs, items, readings@);
    let n: usize = questions.len();
    let mut answers: OrderedMap<Answer> = OrderedMap::new();
    assert(answers_of(answers@) =~= all.take(0));
    for i in 0..n
        invariant
            n == questions@.len(),
            qs == questions@,
            distinct_keys(qs),
            items == prepared.items@,
            items.len() == qs.len(),
            readings@.len() == qs.len(),
            all == all_answers(qs, items, readings@),
            forall|j: int|
                0 <= j < qs.len() ==> fits((#[trigger] qs[j]).1, items[j], readings@[j]),
            unanswered_from(qs, items, readings@, 0) == unanswered_from(
                qs,
                items,
                readings@,
                i as int,
            ),
            answers_of(answers@) == all.take(i as int),
    {
        let (id, q) = questions.at(i);
        assert(qs[i as int] == (id@, q@));
        match answer(id, q, &prepared.items[i].labels, &readings[i]) {
            Ok(a) => {
                proof {
                    let before = all.take(i as int);
                    lemma_put_mapped(answers@, |a: Answer| a@, id@, a);
                    assert forall|j: int| 0 <= j < before.len() implies (#[trigger] before[j]).0
                        != id@ by {
                        assert(qs[j].0 != qs[i as int].0);
                    }
                    lemma_put_fresh(before, id@, a@);
                    assert(all[i as int] == (id@, a@));
                    assert(before.push((id@, a@)) =~= all.take(i + 1));
                }
                answers.insert(id, a);
            },
            Err(e) => return Err(e),
        }
    }
    assert(all.take(all.len() as int) =~= all);
    Ok(
        Prediction {
            model: RUNTIME.to_owned(),
            answers,
            usage: Usage { input_tokens: prepared.batch.n_tokens, output_tokens: 0 },
            routing: None,
        },
    )
}

// ----------------------------------------------------------------------- laws

/// The label a choice picks has the largest probability, and no earlier label has as large a one.
pub proof fn law_choice_is_the_first_largest(p: Seq<Float>, i: int)
    requires
        0 <= i < p.len(),
        forall|j: int| 0 <= j < p.len() ==> !not_a_number(#[trigger] p[j]),
    ensures
        0 <= first_largest(p) < p.len(),
        !less(p[first_largest(p)], p[i]),
        i < first_largest(p) ==> less(p[i], p[first_largest(p)]),
    decreases p.len(),
{
    if p.len() > 1 {
        let q = p.drop_last();
        assert forall|j: int| 0 <= j < q.len() implies !not_a_number(#[trigger] q[j]) by {
            assert(!not_a_number(p[j]));
        }
        law_choice_is_the_first_largest(q, 0);
        let best = first_largest(q);
        assert(q[best] == p[best]);
        if i < p.len() - 1 {
            law_choice_is_the_first_largest(q, i);
            assert(q[i] == p[i]);
        }
        assert(p[p.len() - 1] == p.last());
    }
}

/// A choice is answered with a label of the question that no other beats: its probability is not
/// exceeded by any, and is larger than every earlier one.
pub proof fn law_choice_answer_is_the_most_probable_label(
    id: Seq<char>,
    q: Asked,
    labels: Seq<Seq<char>>,
    reading: Reading,
)
    requires
        q.kind == QType::Choice,
        labels.len() == reading.probabilities@.len() > 0,
        forall|j: int|
            0 <= j < labels.len() ==> !not_a_number(#[trigger] reading.probabilities@[j]),
    ensures
        answer_to(id, q, labels, reading) matches Ok(Answered::Choice { choice, .. })
            && exists|k: int|
            #![trigger labels[k]]
            {
                &&& 0 <= k < labels.len()
                &&& choice == labels[k]
                &&& forall|j: int|
                    0 <= j < labels.len() ==> !less(
                        reading.probabilities@[k],
                        #[trigger] reading.probabilities@[j],
                    )
                &&& forall|j: int|
                    0 <= j < k ==> less(
                        #[trigger] reading.probabilities@[j],
                        reading.probabilities@[k],
                    )
            },
{
    let p = reading.probabilities@;
    let k = first_largest(p);
    law_choice_is_the_first_largest(p, 0);
    assert(answer_to(id, q, labels, reading)->Ok_0->choice == labels[k]);
    assert forall|j: int| 0 <= j < labels.len() implies !less(p[k], #[trigger] p[j]) by {
        law_choice_is_the_first_largest(p, j);
    }
    assert forall|j: int| 0 <= j < k implies less(#[trigger] p[j], p[k]) by {
        law_choice_is_the_first_largest(p, j);
    }
}

/// What stands under a label is the value of the last place that has this label; and nothing stands
/// there that is no label.
pub proof fn law_values_stand_under_their_labels<T>(
    labels: Seq<Seq<char>>,
    values: Seq<T>,
    label: Seq<char>,
    i: int,
)
    ensures
        0 <= i < labels.len() && labels[i] == label && (forall|j: int|
            i < j < labels.len() ==> #[trigger] labels[j] != label) ==> lookup(
            under_labels(labels, values),
            label,
        ) == Some(values[i]),
        !labels.contains(label) ==> lookup(under_labels(labels, values), label) is None,
        distinct_keys(under_labels(labels, values)),
    decreases labels.len(),
{
    if labels.len() > 0 {
        let some = labels.drop_last();
        let last = labels.len() - 1;
        let before = under_labels(some, values);
        law_values_stand_under_their_labels(some, values, label, i);
        lemma_put_distinct(before, labels.last(), values[last]);
        law_what_is_put_is_found(before, labels.last(), values[last], label);
        assert(labels[last] == labels.last());
        if !labels.contains(label) {
            assert(!some.contains(label)) by {
                if some.contains(label) {
                    let k = choose|k: int| 0 <= k < some.len() && some[k] == label;
                    assert(labels[k] == label);
                }
            }
            assert(labels.contains(labels[last]));
        }
        if 0 <= i < labels.len() && labels[i] == label && (forall|j: int|
            i < j < labels.len() ==> #[trigger] labels[j] != label) {
            if i < last {
                assert(labels[last] != label);
                assert forall|j: int| i < j < some.len() implies #[trigger] some[j] != label by {
                    assert(labels[j] != label);
                }
                assert(some[i] == label);
            }
        }
    }
}

/// Labels that differ keep their order, each with its own value.
pub proof fn law_distinct_labels_keep_their_order<T>(labels: Seq<Seq<char>>, values: Seq<T>)
    requires
        forall|i: int, j: int| 0 <= i < j < labels.len() ==> #[trigger] labels[i] != #[trigger] labels[j],
    ensures
        under_labels(labels, values).len() == labels.len(),
        forall|i: int|
            0 <= i < labels.len() ==> #[trigger] under_labels(labels, values)[i] == (
                labels[i],
                values[i],
            ),
    decreases labels.len(),
{
    if labels.len() > 0 {
        let some = labels.drop_last();
        let last = labels.len() - 1;
        let before = under_labels(some, values);
        assert forall|i: int, j: int| 0 <= i < j < some.len() implies #[trigger] some[i]
            != #[trigger] some[j] by {
            assert(labels[i] != labels[j]);
        }
        law_distinct_labels_keep_their_order(some, values);
        assert forall|i: int| 0 <= i < before.len() implies (#[trigger] before[i]).0
            != labels.last() by {
            assert(before[i] == (some[i], values[i]));
            assert(labels[i] != labels[last]);
        }
        lemma_put_fresh(before, labels.last(), values[last]);
    }
}

/// An answer is of its question's kind and carries what was read: the confidence and the action of
/// the reading for every kind, the rounded probability of every label, for a score the expected
/// level, and for a boolean the rounded probability of `true`.
pub proof fn law_answers_carry_their_reading(
    id: Seq<char>,
    q: Asked,
    labels: Seq<Seq<char>>,
    reading: Reading,
    i: int,
)
    requires
        options_of(q) is Some,
        labels == firsts(options_of(q)->0),
        reading.rounded@.len() == labels.len(),
        0 <= i < labels.len(),
        forall|j: int| i < j < labels.len() ==> #[trigger] labels[j] != labels[i],
    ensures
        match answer_to(id, q, labels, reading) {
            Ok(Answered::Choice { choice, probabilities, confidence, action }) => {
                &&& q.kind == QType::Choice
                &&& lookup(probabilities, labels[i]) == Some(reading.rounded@[i])
                &&& confidence == reading.confidence
                &&& action.act_probability == reading.act_probability
            },
            Ok(Answered::Score { score, legend, probabilities, confidence, action }) => {
                &&& q.kind == QType::Score
                &&& score == reading.value
                &&& q.criteria matches Some(Json::Array(levels)) && lookup(legend, labels[i])
                    == Some(levels[i])
                &&& lookup(probabilities, labels[i]) == Some(reading.rounded@[i])
                &&& confidence == reading.confidence
                &&& action.act_probability == reading.act_probability
            },
            Ok(Answered::Noul { noul, confidence, action }) => {
                &&& q.kind == QType::Noul
                &&& labels[i] == "true"@ ==> noul == reading.rounded@[i]
                &&& confidence == reading.confidence
                &&& action.act_probability == reading.act_probability
            },
            Err(_) => false,
        },
{
    law_values_stand_under_their_labels(labels, reading.rounded@, labels[i], i);
    match q.kind {
        QType::Score => {
            law_values_stand_under_their_labels(labels, levels_of(q), labels[i], i);
        },
        QType::Noul => {
            reveal_strlit("true");
            reveal_strlit("false");
            assert("true"@.len() != "false"@.len());
        },
        _ => {},
    }
}

/// Every question is answered from its own labels and its own reading, under its own id; the first
/// question that has no answer is the one that is complained about.
pub proof fn law_every_question_is_answered_from_its_own_reading(
    questions: Seq<(Seq<char>, Asked)>,
    items: Seq<Item>,
    readings: Seq<Reading>,
    i: int,
)
    requires
        0 <= i < questions.len(),
    ensures
        all_answers(questions, items, readings).len() == questions.len(),
        all_answers(questions, items, readings)[i].0 == questions[i].0,
        match unanswered_from(questions, items, readings, 0) {
            None => answer_to(
                questions[i].0,
                questions[i].1,
                texts(items[i].labels@),
                readings[i],
            ) == Ok::<Answered, Failure>(all_answers(questions, items, readings)[i].1),
            Some(e) => exists|k: int|
                #![trigger questions[k]]
                {
                    &&& 0 <= k < questions.len()
                    &&& answer_to(
                        questions[k].0,
                        questions[k].1,
                        texts(items[k].labels@),
                        readings[k],
                    ) == Err::<Answered, Failure>(e)
                    &&& forall|j: int|
                        0 <= j < k ==> answer_to(
                            (#[trigger] questions[j]).0,
                            questions[j].1,
                            texts(items[j].labels@),
                            readings[j],
                        ) is Ok
                },
        },
{
    lemma_unanswered(questions, items, readings, 0);
}

#[verifier::rlimit(40)]
proof fn lemma_unanswered(
    questions: Seq<(Seq<char>, Asked)>,
    items: Seq<Item>,
    readings: Seq<Reading>,
    n: int,
)
    requires
        0 <= n <= questions.len(),
    ensures
        match unanswered_from(questions, items, readings, n) {
            None => forall|i: int|
                n <= i < questions.len() ==> answer_to(
                    (#[trigger] questions[i]).0,
                    questions[i].1,
                    texts(items[i].labels@),
                    readings[i],
                ) is Ok,
            Some(e) => exists|k: int|
                #![trigger questions[k]]
                {
                    &&& n <= k < questions.len()
                    &&& answer_to(
                        questions[k].0,
                        questions[k].1,
                        texts(items[k].labels@),
                        readings[k],
                    ) == Err::<Answered, Failure>(e)
                    &&& forall|j: int|
                        n <= j < k ==> answer_to(
                            (#[trigger] questions[j]).0,
                            questions[j].1,
                            texts(items[j].labels@),
                            readings[j],
                        ) is Ok
                },
        },
    decreases questions.len() - n,
{
    if n < questions.len() {
        let a = answer_at(questions, items, readings, n);
        if a is Ok {
            lemma_unanswered(questions, items, readings, n + 1);
        } else {
            assert(questions[n] == questions[n]);
        }
    }
}

/// The answers come back in the order of the questions, one under each id.
pub proof fn law_answers_keep_the_order_of_questions(
    questions: Seq<(Seq<char>, Asked)>,
    items: Seq<Item>,
    readings: Seq<Reading>,
)
    ensures
        keys_of(all_answers(questions, items, readings)) == keys_of(questions),
{
    assert(keys_of(all_answers(questions, items, readings)) =~= keys_of(questions));
}

/// Without questions there is nothing to answer, whatever the state; and no prediction is prepared
/// with fewer or more items than there are questions.
pub proof fn law_one_item_per_question(
    enc: Encoder,
    state: Json,
    questions: Seq<(Seq<char>, Asked)>,
    outcome: Result<Seq<Encoded>, Failure>,
)
    requires
        prepares(enc, state, questions, outcome),
    ensures
        questions.len() == 0 ==> outcome == Err::<Seq<Encoded>, Failure>(Failure::NoQuestions),
        outcome matches Ok(items) ==> items.len() == questions.len() > 0,
{
}

/// A state is encoded from the text it is: a string from itself, and anything else just as the
/// string of its whole JSON would be.
pub proof fn law_state_is_encoded_from_its_whole_text(
    enc: Encoder,
    state: Json,
    text: Seq<char>,
    answer: Result<Seq<u32>, Seq<char>>,
)
    requires
        text == match state {
            Json::Text(s) => s,
            _ => dumped(state, false),
        },
    ensures
        encodes_state(enc, state, answer) <==> encodes_state(enc, Json::Text(text), answer),
        encodes_state(enc, state, answer) <==> settles(
            enc.tok,
            enc.sp.mask_token@,
            enc.max_len as nat,
            text,
            first_budget(enc.max_len as nat),
            answer,
        ),
{
}

/// No field of an object is left out of the text it is encoded from: the text stands in braces and
/// holds every key with its value.
pub proof fn law_no_field_of_a_state_is_left_out(
    enc: Encoder,
    fields: Seq<(Seq<char>, Json)>,
    i: int,
)
    requires
        0 <= i < fields.len(),
    ensures
        exists|text: Seq<char>|
            {
                &&& text[0] == '{' && #[trigger] text.last() == '}'
                &&& occurs_in(
                    text,
                    string_literal(fields[i].0, false) + seq![':', ' '] + dumped(
                        fields[i].1,
                        false,
                    ),
                )
                &&& forall|answer: Result<Seq<u32>, Seq<char>>| #[trigger]
                    encodes_state(enc, Json::Object(fields), answer) <==> settles(
                        enc.tok,
                        enc.sp.mask_token@,
                        enc.max_len as nat,
                        text,
                        first_budget(enc.max_len as nat),
                        answer,
                    )
            },
{
    law_objects_are_shown_whole(fields, false, i);
    let text = dumped(Json::Object(fields), false);
    assert(text.last() == '}');
}

/// No item of an array is left out of the text it is encoded from: the text stands in brackets and
/// holds every item.
pub proof fn law_no_item_of_a_state_is_left_out(enc: Encoder, items: Seq<Json>, i: int)
    requires
        0 <= i < items.len(),
    ensures
        exists|text: Seq<char>|
            {
                &&& text[0] == '[' && #[trigger] text.last() == ']'
                &&& occurs_in(text, dumped(items[i], false))
                &&& forall|answer: Result<Seq<u32>, Seq<char>>| #[trigger]
                    encodes_state(enc, Json::Array(items), answer) <==> settles(
                        enc.tok,
                        enc.sp.mask_token@,
                        enc.max_len as nat,
                        text,
                        first_budget(enc.max_len as nat),
                        answer,
                    )
            },
{
    law_arrays_are_shown_whole(items, false, i);
    let text = dumped(Json::Array(items), false);
    assert(text.last() == ']');
}

/// Two states that differ in a key, in a value or in an item are never encoded from the same text.
pub proof fn law_different_states_are_encoded_from_different_texts(
    enc: Encoder,
    a: Json,
    b: Json,
    answer: Result<Seq<u32>, Seq<char>>,
)
    requires
        !(a is Text),
        !(b is Text),
        is_written_out(a),
        is_written_out(b),
        !alike(a, b),
    ensures
        dumped(a, false) != dumped(b, false),
        encodes_state(enc, a, answer) <==> encodes_state(
            enc,
            Json::Text(dumped(a, false)),
            answer,
        ),
        encodes_state(enc, b, answer) <==> encodes_state(
            enc,
            Json::Text(dumped(b, false)),
            answer,
        ),
{
    if dumped(a, false) == dumped(b, false) {
        law_different_values_are_written_differently(a, b, false);
    }
}

/// Every question has its own item: the one at its place is of its kind and has its labels.
pub proof fn law_every_item_belongs_to_its_question(
    enc: Encoder,
    state: Json,
    questions: Seq<(Seq<char>, Asked)>,
    items: Seq<Encoded>,
    i: int,
)
    requires
        prepares(enc, state, questions, Ok(items)),
        0 <= i < questions.len(),
    ensures
        items.len() == questions.len(),
        items[i].kind == questions[i].1.kind,
        options_of(questions[i].1) is Some,
        items[i].labels == firsts(options_of(questions[i].1)->0),
        items[i].markers.len() == items[i].labels.len(),
        items[i].ids.len() <= enc.max_len,
{
    let outcome: Result<Seq<Encoded>, Failure> = Ok(items);
    let answer = choose|answer: Result<Seq<u32>, Seq<char>>| #[trigger]
        encodes_state(enc, state, answer) && match answer {
            Ok(ids) => builds_all(enc, ids, questions, outcome),
            Err(m) => outcome == Err::<Seq<Encoded>, Failure>(Failure::Tokenizer(m)),
        };
    let ids = answer->Ok_0;
    assert(built(enc, ids, questions, items));
    assert(builds(enc, ids, questions[i].0, questions[i].1, Ok(items[i])));
    law_built_items_are_well_laid_out(enc, ids, questions[i].0, questions[i].1, items[i]);
}

/// A preparation fails for one reason: there is no question, the state is refused, or a question cannot be
/// encoded, and then it is the first that cannot.
pub proof fn law_why_a_preparation_fails(
    enc: Encoder,
    state: Json,
    questions: Seq<(Seq<char>, Asked)>,
    e: Failure,
)
    requires
        prepares(enc, state, questions, Err(e)),
        questions.len() > 0,
    ensures
        (exists|m: Seq<char>| #[trigger]
            encodes_state(enc, state, Err(m)) && e == Failure::Tokenizer(m)) || (exists|
            ids: Seq<u32>,
            items: Seq<Encoded>,
        |
            {
                &&& encodes_state(enc, state, Ok(ids))
                &&& #[trigger] built(enc, ids, questions, items)
                &&& items.len() < questions.len()
                &&& builds(
                    enc,
                    ids,
                    questions[items.len() as int].0,
                    questions[items.len() as int].1,
                    Err(e),
                )
            }),
{
    let outcome: Result<Seq<Encoded>, Failure> = Err(e);
    let answer = choose|answer: Result<Seq<u32>, Seq<char>>| #[trigger]
        encodes_state(enc, state, answer) && match answer {
            Ok(ids) => builds_all(enc, ids, questions, outcome),
            Err(m) => outcome == Err::<Seq<Encoded>, Failure>(Failure::Tokenizer(m)),
        };
    match answer {
        Ok(ids) => {
            let items = choose|items: Seq<Encoded>|
                {
                    &&& #[trigger] built(enc, ids, questions, items)
                    &&& items.len() < questions.len()
                    &&& builds(
                        enc,
                        ids,
                        questions[items.len() as int].0,
                        questions[items.len() as int].1,
                        Err(e),
                    )
                };
            assert(built(enc, ids, questions, items));
        },
        Err(m) => {
            assert(encodes_state(enc, state, Err(m)));
        },
    }
}

/// The items of a preparation are its questions encoded over the one encoded state, each under its own id.
pub proof fn law_every_question_is_encoded_over_the_state(
    enc: Encoder,
    state: Json,
    questions: Seq<(Seq<char>, Asked)>,
    items: Seq<Encoded>,
)
    requires
        prepares(enc, state, questions, Ok(items)),
    ensures
        exists|ids: Seq<u32>|
            {
                &&& #[trigger] encodes_state(enc, state, Ok(ids))
                &&& forall|i: int|
                    0 <= i < questions.len() ==> builds(
                        enc,
                        ids,
                        (#[trigger] questions[i]).0,
                        questions[i].1,
                        Ok(items[i]),
                    )
            },
{
    let outcome: Result<Seq<Encoded>, Failure> = Ok(items);
    let answer = choose|answer: Result<Seq<u32>, Seq<char>>| #[trigger]
        encodes_state(enc, state, answer) && match answer {
            Ok(ids) => builds_all(enc, ids, questions, outcome),
            Err(m) => outcome == Err::<Seq<Encoded>, Failure>(Failure::Tokenizer(m)),
        };
    let ids = answer->Ok_0;
    assert(encodes_state(enc, state, Ok(ids)));
    assert forall|i: int| 0 <= i < questions.len() implies builds(
        enc,
        ids,
        (#[trigger] questions[i]).0,
        questions[i].1,
        Ok(items[i]),
    ) by {
        assert(built(enc, ids, questions, items));
        assert(items[i] == items[i]);
    }
}

// ----------------------------------------------------------------------- what callers are given

/// The choice that a caller is given is a label of which no other is more probable, and no earlier one as
/// probable.
pub proof fn law_given_choice(
    id: &str,
    q: &Question,
    labels: &Vec<String>,
    reading: &Reading,
    r: Result<Answer, Error>,
)
    requires
        call_ensures(answer, (id, q, labels, reading), r),
        q@.kind == QType::Choice,
        labels@.len() == reading.probabilities@.len() > 0,
        forall|j: int|
            0 <= j < labels@.len() ==> !not_a_number(#[trigger] reading.probabilities@[j]),
    ensures
        r matches Ok(a) && a@ matches Answered::Choice { choice, .. } && exists|k: int|
            #![trigger texts(labels@)[k]]
            {
                &&& 0 <= k < labels@.len()
                &&& choice == texts(labels@)[k]
                &&& forall|j: int|
                    0 <= j < labels@.len() ==> !less(
                        reading.probabilities@[k],
                        #[trigger] reading.probabilities@[j],
                    )
                &&& forall|j: int|
                    0 <= j < k ==> less(
                        #[trigger] reading.probabilities@[j],
                        reading.probabilities@[k],
                    )
            },
{
    law_choice_answer_is_the_most_probable_label(id@, q@, texts(labels@), *reading);
}

/// What a caller is given to run comes from the whole state: for a state that is not a string, just what
/// the string of its JSON would come to.
pub proof fn law_given_preparation(
    enc: &Encoder,
    state: &Value,
    questions: &Questions,
    r: Result<Prepared, Error>,
)
    requires
        call_ensures(prepare, (enc, state, questions), r),
    ensures
        prepares(*enc, state@, questions@, prepared_outcome(r)),
        !(state@ is Text) ==> prepares(
            *enc,
            Json::Text(dumped(state@, false)),
            questions@,
            prepared_outcome(r),
        ),
        r matches Ok(p) ==> is_batch_of(p.batch, p.items@, enc.sp.pad_id),
{
}

/// A prediction has an answer to every question, counts the tokens that went in and none that came out, and
/// is not routed.
pub proof fn law_given_prediction(
    prepared: &Prepared,
    questions: &Questions,
    readings: &Vec<Reading>,
    r: Result<Prediction, Error>,
)
    requires
        call_ensures(conclude, (prepared, questions, readings), r),
    ensures
        r matches Ok(p) ==> {
            &&& answers_of(p.answers@) == all_answers(questions@, prepared.items@, readings@)
            &&& keys_of(answers_of(p.answers@)) == keys_of(questions@)
            &&& p.usage.input_tokens == prepared.batch.n_tokens
            &&& p.usage.output_tokens == 0
            &&& p.model@ == "laya-rl-agent"@
            &&& p.routing is None
        },
        r is Ok <==> unanswered_from(questions@, prepared.items@, readings@, 0) is None,
{
    law_answers_keep_the_order_of_questions(questions@, prepared.items@, readings@);
}

} // verus!
