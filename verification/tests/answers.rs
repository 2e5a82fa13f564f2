//! Answers, predictions and what the command line prints.

use laya::answer::{Action, Answer, Prediction, Probability, Usage};
use laya::cli;
use laya::cli::Argument;
use laya::error::Error;
use laya::float::Float;
use laya::json::Value;
use laya::ordered::OrderedMap;
use laya::predict::{answer, argmax, conclude, distribution, Prepared, Reading, RUNTIME};
use laya::presets;
use laya::question::{QType, Question, Questions};
use laya::router::ModelName;
use laya::sequence::{Batch, Item};

fn bits(v: f32) -> Float {
    Float::from_bits(v.to_bits())
}

fn value(f: Float) -> f32 {
    f32::from_bits(f.to_bits())
}

fn round4(v: f32) -> f32 {
    (v * 1e4).round() / 1e4
}

fn action() -> Action {
    Action { act_probability: bits(1.0) }
}

fn noul(p: f32) -> Answer {
    Answer::Noul { noul: bits(p), confidence: bits(p.max(1.0 - p)), action: action() }
}

fn read(a: &Answer, label: &str) -> Option<f32> {
    a.probability(label).map(|p| value(p.value().unwrap()))
}

#[test]
fn probabilities_are_read_by_label_for_every_primitive() {
    let choice = Answer::Choice {
        choice: "a".into(),
        probabilities: OrderedMap::new().with("a", bits(0.75)).with("b", bits(0.25)),
        confidence: bits(0.5),
        action: action(),
    };
    assert_eq!(choice.as_choice(), Some("a"));
    assert_eq!(read(&choice, "b"), Some(0.25));
    assert_eq!(read(&choice, "zzz"), None);

    let n = noul(0.75);
    assert_eq!(n.as_noul().map(value), Some(0.75));
    assert_eq!(n.as_choice(), None);
    assert_eq!(read(&n, "true"), Some(0.75));
    assert_eq!(read(&n, "false"), Some(0.25));
    assert_eq!(read(&n, "maybe"), None);
}

#[test]
fn one_minus_a_probability_is_single_precision() {
    for k in 0..=10_000u32 {
        let p = k as f32 / 10_000.0;
        let got = Probability::Not(bits(p)).value().unwrap();
        assert_eq!(value(got), 1.0 - p, "{p}");
    }
    assert_eq!(Probability::Not(bits(1.5)).value(), None);
    assert_eq!(Probability::Not(bits(f32::NAN)).value(), None);
    assert_eq!(Probability::Not(bits(-0.5)).value(), None);
    assert_eq!(Probability::Of(bits(7.0)).value(), Some(bits(7.0)));
}

#[test]
fn below_confidence_lists_the_weak_answers_in_question_order() {
    let mut answers: OrderedMap<Answer> = OrderedMap::new();
    for (id, a) in [("sure", noul(0.99)), ("meh", noul(0.55)), ("coin", noul(0.5))] {
        answers.insert(id, a);
    }
    let p = Prediction {
        model: "test".into(),
        answers,
        usage: Usage { input_tokens: 1, output_tokens: 0 },
        routing: None,
    };
    assert_eq!(p.below_confidence(bits(0.9)), vec!["meh", "coin"]);
    assert_eq!(p.get("sure").map(Answer::confidence).map(value), Some(0.99));
    assert!(p.get("nope").is_none());
    assert!(p.below_confidence(bits(f32::NAN)).is_empty());
}

#[test]
fn a_distribution_is_rounded_and_keeps_label_order() {
    let rounded = vec![bits(round4(0.123456)), bits(round4(0.876544))];
    let d = distribution(&vec!["b".to_string(), "a".to_string()], &rounded);
    assert_eq!([d.at(0).0, d.at(1).0], ["b", "a"]);
    assert_eq!(d.get("b").map(|f| value(*f)), Some(0.1235));
}

#[test]
fn the_first_of_tied_maxima_is_picked() {
    let p = |v: &[f32]| v.iter().map(|x| bits(*x)).collect::<Vec<_>>();
    assert_eq!(argmax(&p(&[0.2, 0.4, 0.4, 0.1])), 1);
    assert_eq!(argmax(&p(&[0.5])), 0);
    assert_eq!(argmax(&p(&[0.1, 0.2, 0.7])), 2);
    // Nothing beats a NaN, and a NaN beats nothing.
    assert_eq!(argmax(&p(&[f32::NAN, 0.9])), 0);
    assert_eq!(argmax(&p(&[0.1, f32::NAN, 0.9])), 2);
}

fn item(labels: &[&str], qtype: QType) -> Item {
    Item {
        ids: vec![1, 2],
        markers: (0..labels.len()).collect(),
        qtype,
        labels: labels.iter().map(|s| s.to_string()).collect(),
    }
}

fn reading(p: &[f32], v: f32) -> Reading {
    Reading {
        probabilities: p.iter().map(|x| bits(*x)).collect(),
        rounded: p.iter().map(|x| bits(round4(*x))).collect(),
        value: bits(v),
        confidence: bits(0.5),
        act_probability: bits(0.25),
    }
}

fn batch(n_tokens: usize) -> Batch {
    Batch {
        input_ids: vec![],
        attention_mask: vec![],
        marker_pos: vec![],
        marker_mask: vec![],
        qtype: vec![],
        batch: 0,
        seq_len: 0,
        k_max: 2,
        n_tokens,
    }
}

#[test]
fn every_primitive_is_answered() {
    let qs = Questions::new()
        .with("pick", Question::choice("pick one").bare_option("a").bare_option("b"))
        .with("level", Question::score("rate").level("low").level("mid").level("high"))
        .with("yes", Question::noul("holds"));
    let prepared = Prepared {
        items: vec![
            item(&["a", "b"], QType::Choice),
            item(&["0", "1", "2"], QType::Score),
            item(&["false", "true"], QType::Noul),
        ],
        batch: batch(42),
    };
    let readings = vec![
        reading(&[0.3, 0.7], 0.0),
        reading(&[0.1, 0.2, 0.7], 1.6),
        reading(&[0.25, 0.75], 0.0),
    ];
    let out = conclude(&prepared, &qs, &readings).unwrap();
    assert_eq!(out.model, RUNTIME);
    assert_eq!((out.usage.input_tokens, out.usage.output_tokens), (42, 0));
    assert!(out.routing.is_none());
    let order: Vec<&str> = (0..out.answers.len()).map(|i| out.answers.at(i).0).collect();
    assert_eq!(order, ["pick", "level", "yes"]);

    let pick = out.get("pick").unwrap();
    assert_eq!(pick.as_choice(), Some("b"));
    assert_eq!(value(pick.action().act_probability), 0.25);
    let level = out.get("level").unwrap();
    assert_eq!(level.as_score().map(value), Some(1.6));
    assert_eq!(read(level, "2"), Some(0.7));
    match level {
        Answer::Score { legend, .. } => {
            assert!(matches!(legend.get("1"), Some(Value::String(s)) if s == "mid"));
        }
        _ => panic!("a score question has a score answer"),
    }
    assert_eq!(out.get("yes").unwrap().as_noul().map(value), Some(0.75));
}

#[test]
fn a_score_without_levels_has_no_answer() {
    let q = Question { kind: QType::Score, instructions: Value::Null, criteria: None };
    let err = match answer("sev", &q, &vec![], &reading(&[], 0.0)) {
        Ok(_) => panic!("there is no level"),
        Err(e) => e,
    };
    assert!(matches!(err, Error::Question { ref id, .. } if id == "sev"), "{err:?}");
}

#[test]
fn arguments_name_a_file_stdin_or_themselves() {
    assert!(matches!(cli::read_source("-"), Argument::Stdin));
    assert!(matches!(cli::read_source("@a/b.json"), Argument::File(ref p) if p == "a/b.json"));
    assert!(matches!(cli::read_source("@"), Argument::File(ref p) if p.is_empty()));
    assert!(matches!(cli::read_source("--"), Argument::Literal(ref s) if s == "--"));
    assert!(matches!(cli::read_source(""), Argument::Literal(ref s) if s.is_empty()));
    assert_eq!(cli::stands_in_for(&None).unwrap(), ModelName::English);
    assert_eq!(cli::stands_in_for(&Some("ml".to_string())).unwrap(), ModelName::Multilingual);
    assert!(cli::stands_in_for(&Some("gpt".to_string())).is_err());
}

#[test]
fn what_is_printed_is_worded_and_aligned() {
    assert_eq!(cli::preset_names(), "triage, email, guard, moderation, router");
    assert_eq!(
        cli::unknown_preset("x"),
        "unknown preset \"x\"; try one of triage, email, guard, moderation, router"
    );
    assert_eq!(
        cli::no_such_questions("x\n"),
        "\"x\\n\" is neither a preset nor a file; presets are triage, email, guard, moderation, \
         router, and a file is given as @path.json"
    );
    assert_eq!(
        cli::preset_line("router", &presets::model_router()),
        format!("{:<12} {}", "router", "difficulty, domain, needs_tools, is_sensitive")
    );
    let ids = vec!["é".to_string(), "abc".to_string()];
    let width = cli::id_width(&ids);
    assert_eq!(width, 3);
    assert_eq!(
        cli::summary_line("é", width, "noul", "0.750", "0.75"),
        format!("{:<3}  {:<6}  {:<28}  confidence {}", "é", "noul", "0.750", "0.75")
    );
}

#[test]
fn errors_read_as_they_should() {
    let s = |t: &str| t.to_string();
    assert_eq!(Error::Candle(s("x")).to_string(), "tensor operation failed: x");
    assert_eq!(Error::Tokenizer(s("x")).to_string(), "tokenizer: x");
    assert_eq!(Error::Io { path: s("p"), source: s("x") }.to_string(), "p: x");
    assert_eq!(Error::Json { path: s("p"), source: s("x") }.to_string(), "p: invalid JSON: x");
    assert_eq!(Error::Checkpoint(s("x")).to_string(), "x");
    assert_eq!(
        Error::Question { id: s("a\"b"), message: s("x") }.to_string(),
        "question \"a\\\"b\": x"
    );
    assert_eq!(Error::NoQuestions.to_string(), "no questions to answer");
    assert_eq!(Error::UnknownModel(s("x")).to_string(), "x");
    assert_eq!(Error::Device(s("x")).to_string(), "x");
    assert_eq!(Error::Hub(s("x")).to_string(), "hugging face hub: x");
}
