//! Questions, presets and how values are written.

use laya::digits::{float_repr, shortest_digits, Real, Shortest};
use laya::error::Error;
use laya::json::{Decimal, Number, Value};
use laya::presets;
use laya::pyjson::{dumps, dumps_ascii, render, render_instructions};
use laya::question::{Askable, QType, Question, Questions};

fn text(s: &str) -> Value {
    Value::String(s.to_string())
}

fn object(fields: Vec<(&str, Value)>) -> Value {
    Value::Object(fields.into_iter().map(|(k, v)| (k.to_string(), v)).collect())
}

fn whole(n: u64) -> Value {
    Value::Number(Number::PosInt(n))
}

/// The shortest digits of a finite number, checked against the number itself.
fn decimal(v: f64) -> Decimal {
    let m = v.abs();
    let shortest = shortest_digits(&format!("{m:e}"), &format!("{m:.767e}"));
    let reads_back = match &shortest {
        Shortest::Check { text, .. } => text.parse::<f64>() == Ok(m),
        Shortest::Settled(..) => true,
    };
    let (digits, exponent) = shortest.settle(reads_back);
    Decimal { negative: v.is_sign_negative(), digits, exponent }
}

fn float(v: f64) -> Value {
    Value::Number(Number::Float(decimal(v)))
}

#[test]
fn separators_match_python() {
    let v = object(vec![
        ("from", text("user@acme.com")),
        ("n", whole(2)),
        ("tags", Value::Array(vec![text("a"), text("b")])),
    ]);
    assert_eq!(dumps(&v), r#"{"from": "user@acme.com", "n": 2, "tags": ["a", "b"]}"#);
}

#[test]
fn non_ascii_is_not_escaped() {
    assert_eq!(dumps(&text("déjà vu")), "\"déjà vu\"");
    assert_eq!(dumps(&text("मुझसे")), "\"मुझसे\"");
}

#[test]
#[allow(clippy::excessive_precision)]
fn floats_are_written_like_python_repr() {
    let cases = [
        (0.00001, "1e-05"),
        (1.5e-7, "1.5e-07"),
        (0.0001, "0.0001"),
        (0.5, "0.5"),
        (1.0, "1.0"),
        (-0.0, "-0.0"),
        (0.0, "0.0"),
        (100000.0, "100000.0"),
        (1234567890123456.0, "1234567890123456.0"),
        (1e16, "1e+16"),
        (123456789012345680000.0, "1.2345678901234568e+20"),
        (-2.5e300, "-2.5e+300"),
        (0.1 + 0.2, "0.30000000000000004"),
        // Exact ties between two shortest candidates go to the even digit.
        (1638415896083094.25, "1638415896083094.2"),
        (86775706647900.125, "86775706647900.12"),
        (5e-324, "5e-324"),
        (f64::MAX, "1.7976931348623157e+308"),
    ];
    for (v, want) in cases {
        assert_eq!(float_repr(&Real::Finite(decimal(v))), want, "{v:?}");
    }
    let v = object(vec![("rate", float(0.00001)), ("n", whole(3))]);
    assert_eq!(dumps(&v), r#"{"rate": 1e-05, "n": 3}"#);
}

#[test]
fn floats_parse_to_the_nearest_double() {
    let v: f64 = "123456789012345680000.0".parse().unwrap();
    assert_eq!(dumps(&float(v)), "1.2345678901234568e+20");
}

#[test]
fn ensure_ascii_escapes_like_python() {
    assert_eq!(
        dumps_ascii(&object(vec![("ask", text("remboursé?"))])),
        r#"{"ask": "rembours\u00e9?"}"#
    );
    assert_eq!(dumps_ascii(&text("😀\u{7f}\n")), r#""\ud83d\ude00\u007f\n""#);
    assert_eq!(render_instructions(&text("remboursé?")), "remboursé?");
}

#[test]
fn a_string_is_not_quoted() {
    assert_eq!(render(&text("plain text")), "plain text");
    assert_eq!(render(&object(vec![("a", whole(1))])), r#"{"a": 1}"#);
}

#[test]
fn every_value_has_its_python_form() {
    assert_eq!(dumps(&Value::Null), "null");
    assert_eq!(dumps(&Value::Bool(true)), "true");
    assert_eq!(dumps(&Value::Bool(false)), "false");
    assert_eq!(dumps(&Value::Number(Number::NegInt(-9_223_372_036_854_775_808))), "-9223372036854775808");
    assert_eq!(dumps(&whole(u64::MAX)), "18446744073709551615");
    assert_eq!(dumps(&Value::Array(vec![])), "[]");
    assert_eq!(dumps(&Value::Object(vec![])), "{}");
    assert_eq!(dumps(&text("\u{8}\u{c}\t\r\n\\\"\u{1}\u{7f}")), "\"\\b\\f\\t\\r\\n\\\\\\\"\\u0001\u{7f}\"");
    assert_eq!(float_repr(&Real::NotANumber), "NaN");
    assert_eq!(float_repr(&Real::Infinity { negative: true }), "-Infinity");
    assert_eq!(float_repr(&Real::Infinity { negative: false }), "Infinity");
}

#[test]
fn ascii_json_is_printable_ascii() {
    let v = object(vec![
        ("clé", text("żółć \u{7f} 🦀")),
        ("n", Value::Array(vec![float(-1.5e300), whole(7), Value::Null])),
    ]);
    let out = dumps_ascii(&v);
    assert!(out.chars().all(|c| (' '..='~').contains(&c)), "{out}");
    assert_eq!(
        out,
        r#"{"cl\u00e9": "\u017c\u00f3\u0142\u0107 \u007f \ud83e\udd80", "n": [-1.5e+300, 7, null]}"#
    );
}

#[test]
fn choice_options_render_label_and_description() {
    let q: Question = Question::choice("Which team?")
        .option("billing", "invoices, payments")
        .bare_option("other")
        .into();
    assert_eq!(q.labels("dept").unwrap(), vec!["billing", "other"]);
    assert_eq!(q.render_options("dept").unwrap(), vec!["billing: invoices, payments", "other"]);
}

#[test]
fn choice_criteria_order_is_preserved() {
    let q = Question {
        kind: QType::Choice,
        instructions: text("x"),
        criteria: Some(object(vec![("z", Value::Null), ("a", Value::Null), ("m", Value::Null)])),
    };
    assert_eq!(q.labels("q").unwrap(), vec!["z", "a", "m"]);
}

#[test]
fn choice_accepts_a_bare_list_of_labels() {
    let q = Question {
        kind: QType::Choice,
        instructions: text("x"),
        criteria: Some(Value::Array(vec![text("a"), text("b")])),
    };
    assert_eq!(q.render_options("q").unwrap(), vec!["a", "b"]);
    assert_eq!(q.labels("q").unwrap(), vec!["a", "b"]);
}

#[test]
fn score_options_are_numbered_levels() {
    let q: Question = Question::score("How urgent?").level("not urgent").level("critical").into();
    assert_eq!(
        q.render_options("q").unwrap(),
        vec!["level 0: not urgent", "level 1: critical"]
    );
}

#[test]
fn noul_falls_back_to_generic_wording() {
    let q: Question = Question::noul("Does the user want a refund?").into();
    assert_eq!(
        q.render_options("q").unwrap(),
        vec!["false: no, the statement does not hold", "true: yes, the statement holds"]
    );
}

#[test]
fn noul_uses_its_own_wording_when_given() {
    let q: Question =
        Question::noul("Phishing?").when_true("a scam").when_false("legitimate").into();
    assert_eq!(q.render_options("q").unwrap(), vec!["false: legitimate", "true: a scam"]);
}

#[test]
fn a_structured_criterion_renders_as_json_not_a_debug_repr() {
    let q = Question {
        kind: QType::Choice,
        instructions: text("x"),
        criteria: Some(object(vec![(
            "billing",
            object(vec![("desc", text("invoices")), ("examples", whole(2))]),
        )])),
    };
    assert_eq!(
        q.render_options("q").unwrap(),
        vec![r#"billing: {"desc": "invoices", "examples": 2}"#]
    );
}

#[test]
fn a_choice_without_criteria_is_rejected() {
    let q = Question { kind: QType::Choice, instructions: text("x"), criteria: None };
    assert!(q.render_options("dept").is_err());
    assert!(matches!(q.labels("dept"), Err(Error::Question { ref id, .. }) if id == "dept"));
}

#[test]
fn zero_and_false_are_real_criteria() {
    let q = Question {
        kind: QType::Choice,
        instructions: text("x"),
        criteria: Some(object(vec![
            ("a", whole(0)),
            ("b", Value::Bool(false)),
            ("c", text("")),
            ("d", Value::Null),
        ])),
    };
    assert_eq!(q.render_options("q").unwrap(), vec!["a: 0", "b: false", "c", "d"]);
}

#[test]
fn misfits_say_what_is_wanted() {
    let q = Question { kind: QType::Choice, instructions: text("x"), criteria: Some(whole(1)) };
    assert_eq!(
        q.render_options("dept").unwrap_err().to_string(),
        "question \"dept\": a choice question needs `criteria`: either a map of label -> \
         description or a list of labels"
    );
    let q = Question {
        kind: QType::Score,
        instructions: text("x"),
        criteria: Some(Value::Array(vec![])),
    };
    assert_eq!(
        q.labels("sev").unwrap_err().to_string(),
        "question \"sev\": a score question needs `criteria`: a non-empty list of ordered level \
         descriptions"
    );
    assert!(q.score_levels("sev").is_err());
}

#[test]
fn structured_instructions_are_escaped() {
    let q = Question {
        kind: QType::Noul,
        instructions: object(vec![("ask", text("remboursé?"))]),
        criteria: None,
    };
    assert_eq!(q.instructions_text(), r#"{"ask": "rembours\u00e9?"}"#);
    let q: Question = Question::noul("remboursé?").into();
    assert_eq!(q.instructions_text(), "remboursé?");
}

#[test]
fn a_label_given_twice_keeps_its_place() {
    let q: Question =
        Question::choice("x").option("a", "first").bare_option("b").option("a", "second").into();
    assert_eq!(q.render_options("q").unwrap(), vec!["a: second", "b"]);
}

#[test]
fn question_sets_keep_their_order() {
    let mut qs = Questions::new().with("b", Question::noul("1")).with("a", Question::noul("2"));
    qs.insert("c", Question::noul("3")).insert("b", Question::score("4").level("x"));
    assert_eq!(qs.keys(), vec!["b", "a", "c"]);
    assert_eq!(qs.len(), 3);
    assert!(!qs.is_empty());
    assert_eq!(qs.get("b").unwrap().kind, QType::Score);
    assert!(qs.get("z").is_none());
    assert_eq!(qs.at(1).0, "a");

    let pairs = vec![
        ("x".to_string(), Question::noul("1").into_question()),
        ("y".to_string(), Question::noul("2").into_question()),
        ("x".to_string(), Question::noul("3").into_question()),
    ];
    let qs = Questions::from_pairs(pairs);
    assert_eq!(qs.keys(), vec!["x", "y"]);
    assert_eq!(qs.get("x").unwrap().instructions_text(), "3");
    assert!(Questions::new().is_empty());
}

#[test]
fn question_sets_can_be_copied() {
    assert!(Questions::default().is_empty());
    let qs = Questions::new()
        .with("b", Question::noul("the statement holds"))
        .with("a", Question::choice("pick one").bare_option("x").bare_option("y"));
    let copy = qs.clone().with("c", Question::noul("more"));
    assert_eq!(qs.keys(), vec!["b", "a"]);
    assert_eq!(copy.keys(), vec!["b", "a", "c"]);
    let q = copy.get("a").unwrap();
    assert_eq!(q.kind, QType::Choice);
    assert_eq!(render(&q.instructions), "pick one");
    assert_eq!(q.options("a").unwrap(), qs.get("a").unwrap().options("a").unwrap());
    assert!(format!("{qs:?}").contains("pick one"));
}

#[test]
fn kinds_have_an_index_and_a_name() {
    let all: Vec<(usize, &str)> = QType::ALL.iter().map(|k| (k.index(), k.name())).collect();
    assert_eq!(all, vec![(0, "choice"), (1, "score"), (2, "noul")]);
}

#[test]
fn every_listed_preset_resolves_and_renders() {
    for name in presets::NAMES {
        let qs = presets::by_name(name)
            .unwrap_or_else(|| panic!("{name} is listed but not resolvable"));
        assert!(!qs.is_empty());
        for i in 0..qs.len() {
            let (id, q) = qs.at(i);
            assert!(!q.render_options(id).unwrap().is_empty());
        }
    }
}

#[test]
fn email_categories_can_be_replaced() {
    let cats = vec![
        ("a".to_string(), "first".to_string()),
        ("b".to_string(), "second".to_string()),
    ];
    let qs = presets::email(Some(cats));
    assert_eq!(qs.get("category").unwrap().labels("category").unwrap(), vec!["a", "b"]);
}

#[test]
fn presets_are_found_whatever_their_spelling() {
    assert_eq!(presets::names(), presets::NAMES.to_vec());
    let qs = presets::by_name("  Model-Router ").unwrap();
    assert_eq!(qs.keys(), vec!["difficulty", "domain", "needs_tools", "is_sensitive"]);
    assert!(presets::by_plain_name("model_router").is_some());
    assert!(presets::by_plain_name("Model_Router").is_none());
    assert!(presets::by_name("nope").is_none());
    assert_eq!(
        presets::email(None).get("category").unwrap().render_options("category").unwrap()[0],
        "billing: invoices, payments, refunds"
    );
    assert_eq!(
        presets::email(None).get("is_phishing").unwrap().render_options("p").unwrap(),
        vec!["false: a legitimate email", "true: phishing, scam, or fraud"]
    );
    assert_eq!(
        presets::triage().keys(),
        vec!["intent", "is_urgent", "frustration", "refund_requested", "churn_risk"]
    );
    assert_eq!(presets::guard().get("topic").unwrap().labels("t").unwrap().len(), 6);
    assert_eq!(presets::moderation().len(), 5);
}
