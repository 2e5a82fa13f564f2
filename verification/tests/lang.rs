//! Script and language detection, and the arithmetic behind its fractions.

use laya::float::{divide, encode, percent, round4, subtract_from_one, Dyadic, Float};
use laya::json::{Number, Value};
use laya::lang::{
    analyse, detect_script, hits, is_english, name_language, profile_latin, script_counts,
    script_of, script_profile, state_text, words, Language, Script, MAX_DETECTION_CHARS,
    NON_EN_DIACRITIC_RATE,
};

fn text(s: &str) -> Value {
    Value::String(s.to_string())
}

fn object(fields: Vec<(&str, Value)>) -> Value {
    Value::Object(fields.into_iter().map(|(k, v)| (k.to_string(), v)).collect())
}

fn value(f: Float) -> f32 {
    f32::from_bits(f.to_bits())
}

#[test]
fn non_latin_scripts_are_detected_exactly() {
    assert_eq!(detect_script("मुझसे दो बार शुल्क लिया गया"), "devanagari");
    assert_eq!(detect_script("请尽快退款"), "han");
    assert_eq!(detect_script("환불해 주세요"), "hangul");
    assert_eq!(detect_script("الرجاء رد المبلغ"), "arabic");
    assert_eq!(detect_script("1234 !!"), "unknown");
}

#[test]
fn english_is_routed_to_the_english_checkpoint() {
    let d = analyse(&object(vec![(
        "body",
        text("We were billed twice for March and would like a refund."),
    )]));
    assert_eq!(d.script, "latin");
    assert_eq!(d.language.as_deref(), Some("en"));
    assert!(d.is_english);
}

#[test]
fn a_latin_script_language_is_not_english() {
    let d = analyse(&text("Der Kunde wurde zweimal belastet und ist nicht zufrieden"));
    assert_eq!(d.language.as_deref(), Some("de"));
    assert!(!d.is_english);
}

#[test]
fn an_unidentified_latin_language_is_caught_by_its_letters() {
    // No Romanian stopwords hit here, but the diacritics do.
    let d = analyse(&text("Clientul a fost taxat de două ori și dorește rambursarea sumei"));
    assert!(!d.is_english, "{d:?}");
}

#[test]
fn a_state_with_no_letters_stays_on_the_default() {
    let d = analyse(&object(vec![
        ("amount", Value::Number(Number::PosInt(4411))),
        ("ok", Value::Bool(false)),
    ]));
    assert_eq!(d.script, "unknown");
    assert!(d.is_english);
}

#[test]
fn detection_reads_nested_string_leaves() {
    let d = analyse(&object(vec![(
        "thread",
        Value::Array(vec![object(vec![("body", text("मुझसे दो बार शुल्क लिया गया"))])]),
    )]));
    assert_eq!(d.script, "devanagari");
    assert!(!d.is_english);
}

#[test]
fn letters_of_a_script_without_a_name_are_still_letters() {
    // Cherokee, Gothic and Runic with digits in between.
    for s in ["\u{13A0}\u{13A1}", "\u{10330}", "12 \u{16A0} 34"] {
        assert_eq!(detect_script(s), "other");
        let d = analyse(&text(s));
        assert_eq!(d.script, "other");
        assert_eq!(value(d.non_latin_fraction), 1.0);
        assert!(!d.is_english);
        assert!(!is_english(&text(s)));
    }
    assert_eq!(script_of('\u{13A0}'), None);
    // Without a single letter there is no script to name.
    assert_eq!(detect_script("12 34 !!"), "unknown");
    assert_eq!(detect_script(""), "unknown");
}

#[test]
fn scripts_are_told_apart_at_their_borders() {
    assert_eq!(script_of('a'), Some(Script::Latin));
    assert_eq!(script_of('\u{24f}'), Some(Script::Latin));
    assert_eq!(script_of('\u{250}'), None);
    assert_eq!(script_of('ệ'), Some(Script::Latin));
    assert_eq!(script_of('α'), Some(Script::Greek));
    assert_eq!(script_of('\u{52f}'), Some(Script::Cyrillic));
    assert_eq!(script_of('\u{530}'), Some(Script::Armenian));
    assert_eq!(script_of('か'), Some(Script::Kana));
    assert_eq!(script_of('\u{d7a3}'), Some(Script::Hangul));
    assert_eq!(script_of('😀'), None);
}

#[test]
fn scripts_are_counted_in_the_order_they_are_seen() {
    assert_eq!(
        script_counts("я a bб 1 漢"),
        vec![(Script::Cyrillic, 2), (Script::Latin, 2), (Script::Han, 1)]
    );
    // A tie goes to the script that was seen first.
    assert_eq!(detect_script("я a"), "cyrillic");
    assert_eq!(detect_script("a я"), "latin");
    assert_eq!(script_counts("12 34"), vec![]);
}

#[test]
fn profiles_are_fractions_by_name() {
    let p = script_profile("abc яю 漢");
    let got: Vec<(&str, f32)> = p.iter().map(|(n, f)| (n.as_str(), value(*f))).collect();
    assert_eq!(got, vec![("cyrillic", 2.0 / 6.0), ("han", 1.0 / 6.0), ("latin", 3.0 / 6.0)]);
    assert!(script_profile("...").is_empty());
    let d = analyse(&text("abc яюэ漢 ыы"));
    assert_eq!(d.script, "cyrillic");
    assert_eq!(value(d.non_latin_fraction), 0.6667);
    assert!(d.language_undecided && !d.is_english);
}

#[test]
fn fractions_are_those_of_single_precision() {
    for t in 1..400usize {
        for n in 0..=t {
            let q = n as f32 / t as f32;
            let got = divide(n, t);
            assert_eq!(value(encode(got)), q, "{n}/{t}");
            let r4 = |v: f32| (v * 1e4).round() / 1e4;
            assert_eq!(value(encode(round4(got))), r4(q), "{n}/{t}");
            let rest = subtract_from_one(got);
            assert_eq!(value(encode(rest)), 1.0 - q, "1 - {n}/{t}");
            let published = encode(round4(rest));
            assert_eq!(value(published), r4(1.0 - q), "1 - {n}/{t}");
            let pct = format!("{:.0}", 100.0 * r4(1.0 - q));
            assert_eq!(percent(published).to_string(), pct, "1 - {n}/{t}");
        }
    }
    for (n, d) in [(1usize, 3usize), (16_777_217, 33_554_435), (123_456_789, 987_654_321)] {
        assert_eq!(value(encode(divide(n, d))), n as f32 / d as f32, "{n}/{d}");
    }
    assert_eq!(value(encode(Dyadic { m: 0, s: 0 })), 0.0);
    assert_eq!(f32::from_bits(NON_EN_DIACRITIC_RATE), 0.02);
}

#[test]
fn floats_compare_as_numbers_do() {
    let all = [
        f32::NEG_INFINITY, -2.5, -1e-40, -0.0, 0.0, 1e-40, 0.5, 0.50000006, 1.0, 3.0e38,
        f32::INFINITY, f32::NAN, -f32::NAN,
    ];
    for a in all {
        for b in all {
            let (x, y) = (Float::from_bits(a.to_bits()), Float::from_bits(b.to_bits()));
            assert_eq!(x.less_than(y), a < b, "{a} < {b}");
        }
        let x = Float::from_bits(a.to_bits());
        assert_eq!((x.is_finite(), x.is_nan()), (a.is_finite(), a.is_nan()), "{a}");
    }
}

#[test]
fn detection_reads_strings_only_and_not_too_deep() {
    let mut deep = text("tief");
    for _ in 0..6 {
        deep = Value::Array(vec![deep]);
    }
    assert_eq!(state_text(&deep), "tief");
    assert_eq!(state_text(&Value::Array(vec![deep])), "");
    let v = object(vec![("key", text("a")), ("n", Value::Null), ("more", text("b"))]);
    assert_eq!(state_text(&v), "a b");
    // The same values under other keys read the same.
    let w = object(vec![("ключ", text("a")), ("x", Value::Null), ("y", text("b"))]);
    assert_eq!(state_text(&w), state_text(&v));
    let long = text(&"я".repeat(5000));
    assert_eq!(state_text(&long).chars().count(), MAX_DETECTION_CHARS);
}

#[test]
fn words_are_runs_of_letters_in_lower_case() {
    assert_eq!(words("Der Kunde, 2x (ÄRGER) İ"), vec!["der", "kunde", "x", "ärger", "i\u{307}"]);
    assert!(words("12 !").is_empty());
    assert_eq!(words("end"), vec!["end"]);
}

fn list(words: &[&str]) -> Vec<String> {
    words.iter().map(|w| w.to_string()).collect()
}

#[test]
fn a_language_needs_a_margin() {
    assert_eq!(hits(&list(&["the", "der", "die", "x"]), Language::German), 2);
    // Two German words against one English one are no margin.
    assert_eq!(name_language(&list(&["the", "der", "die", "x"]), false), Some(Language::English));
    assert_eq!(name_language(&list(&["the", "der", "die", "x"]), true), Some(Language::German));
    assert_eq!(name_language(&list(&["das", "der", "die", "x"]), false), Some(Language::German));
    // One shared word names nothing, whatever the letters say.
    assert_eq!(name_language(&list(&["para", "x", "y", "z"]), true), None);
    assert_eq!(name_language(&list(&["x", "y", "z", "w"]), false), None);
    // Fewer than four words are too few.
    assert_eq!(name_language(&list(&["der", "die", "das"]), true), None);
    // `que` and `esta` are both Spanish and Portuguese; the earlier language keeps a tie.
    assert_eq!(name_language(&list(&["que", "esta", "x", "y"]), true), Some(Language::Spanish));
    assert_eq!(Language::Romanian.code(), "ro");
}

#[test]
fn letters_can_speak_against_english() {
    let p = profile_latin(&list(&["x"]), "aaaaaaaaaaaaaaaaaaaaaaaaaaaaaaaaaaaaaaaaaaaaaaaaaé");
    // The rate itself is not above the rate.
    assert!(!p.looks_non_english);
    assert_eq!(value(encode(p.diacritic_rate)), 0.02);
    let p = profile_latin(&list(&["x"]), "aaaaaaaaaaaaaaaaaaaaaaaaaaaaaaaaaaaaaaaaaaaaaaaaé");
    assert!(p.looks_non_english);
    let d = analyse(&text(&format!("é{}", "a".repeat(49))));
    assert_eq!(value(d.diacritic_rate), 0.02);
    assert!(d.language.is_none() && d.is_english);
    assert!(!analyse(&text(&format!("é{}", "a".repeat(48)))).is_english);
    let p = profile_latin(&vec![], "");
    assert!(!p.looks_non_english && p.language.is_none());

    let d = analyse(&text("Zażółć gęślą jaźń"));
    assert!(!d.is_english && d.language_undecided);
    assert!(value(d.diacritic_rate) > 0.3);
    assert!(is_english(&text("Hi")));
    assert!(!is_english(&text("Привет")));
}

#[test]
fn the_crate_names_detection_for_its_callers() {
    let d = laya::detect_language(&text("Der Kunde wurde zweimal belastet"));
    assert!(!d.is_english);
    assert_eq!(d.language.as_deref(), Some("de"));
    assert_eq!(laya::detect_script("नमस्ते"), "devanagari");
    assert!(laya::is_english(&text("The customer was billed twice for the month")));
}
