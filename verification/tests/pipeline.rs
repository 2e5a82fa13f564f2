//! Which tokenizers can be run on every text.

use laya::charsmap::{charsmap, decode};
use laya::json::{Number, Value};
use laya::pipeline::sound;
use laya::sequence::Encoder;
use laya::tokenizer::prepare;
use laya::Error;
use tokenizers::Tokenizer;

const VOCAB: [&str; 9] = ["[PAD]", "[CLS]", "[SEP]", "[MASK]", "[UNK]", "a", "b", "ab", "\u{120}a"];

const NONE: &str = "null";
const WORDS: &str = r#"{"type": "Whitespace"}"#;

fn added(id: usize, content: &str, lstrip: bool, rstrip: bool) -> String {
    format!(
        "{{\"id\": {id}, \"content\": \"{content}\", \"single_word\": false, \"lstrip\": {lstrip}, \
         \"rstrip\": {rstrip}, \"normalized\": false, \"special\": true}}"
    )
}

/// A word-level tokenizer with these parts.
fn built(normalizer: &str, cutter: &str, processor: &str, padding: &str, tokens: &str) -> Tokenizer {
    let vocab: Vec<String> =
        VOCAB.iter().enumerate().map(|(i, w)| format!("\"{w}\": {i}")).collect();
    let json = format!(
        "{{\"version\": \"1.0\", \"truncation\": null, \"padding\": {padding}, \
         \"added_tokens\": [{tokens}], \"normalizer\": {normalizer}, \
         \"pre_tokenizer\": {cutter}, \"post_processor\": {processor}, \"decoder\": null, \
         \"model\": {{\"type\": \"WordLevel\", \"vocab\": {{{}}}, \"unk_token\": \"[UNK]\"}}}}",
        vocab.join(", ")
    );
    json.parse().expect("parsing a tokenizer")
}

fn refused(tok: Tokenizer) -> bool {
    match prepare(tok, &Value::Null, "cp") {
        Ok(_) => false,
        Err(e) => {
            assert!(matches!(e, Error::Tokenizer(_)));
            assert_eq!(
                e.to_string(),
                "tokenizer: cp: the tokenizer is set up in a way that can make it panic"
            );
            true
        }
    }
}

/// The ids of a text, once the tokenizer was prepared.
fn ids(tok: Tokenizer, text: &str) -> Vec<u32> {
    let (tok, sp) = prepare(tok, &Value::Null, "cp").expect("preparing a tokenizer");
    Encoder::new(tok, sp, 64, 32).encode_state(text).expect("encoding a text")
}

fn normalizer(json: &str) -> Tokenizer {
    built(json, WORDS, NONE, NONE, "")
}

fn cutter(json: &str) -> Tokenizer {
    built(NONE, json, NONE, NONE, "")
}

fn processor(json: &str) -> Tokenizer {
    built(NONE, WORDS, json, NONE, "")
}

fn padding(strategy: &str, step: &str) -> Tokenizer {
    let json = format!(
        "{{\"strategy\": {strategy}, \"direction\": \"Right\", \"pad_to_multiple_of\": {step}, \
         \"pad_id\": 0, \"pad_type_id\": 0, \"pad_token\": \"[PAD]\"}}"
    );
    built(NONE, WORDS, NONE, &json, "")
}

fn template(single: &str, pair: &str) -> String {
    format!(
        "{{\"type\": \"TemplateProcessing\", \"single\": [{single}], \"pair\": [{pair}], \
         \"special_tokens\": {{\"[CLS]\": {{\"id\": \"[CLS]\", \"ids\": [1], \
         \"tokens\": [\"[CLS]\"]}}}}}}"
    )
}

const CLS: &str = r#"{"SpecialToken": {"id": "[CLS]", "type_id": 0}}"#;
const A: &str = r#"{"Sequence": {"id": "A", "type_id": 0}}"#;
const B: &str = r#"{"Sequence": {"id": "B", "type_id": 0}}"#;

#[test]
fn plain_tokenizers_are_run() {
    assert_eq!(ids(built(NONE, NONE, NONE, NONE, ""), "ab"), vec![7]);
    assert_eq!(ids(normalizer(r#"{"type": "Lowercase"}"#), "A AB"), vec![5, 7]);
    assert_eq!(ids(processor(&template(&format!("{CLS}, {A}"), &format!("{A}, {B}"))), "a"), vec![5]);
    let nfc = r#"{"type": "Sequence", "normalizers": [{"type": "NFC"}, {"type": "Strip",
        "strip_left": true, "strip_right": true}]}"#;
    assert_eq!(ids(normalizer(nfc), " a b "), vec![5, 6]);
    let bytes = r#"{"type": "ByteLevel", "add_prefix_space": true, "trim_offsets": true,
        "use_regex": true}"#;
    assert_eq!(ids(cutter(bytes), "a"), vec![8]);
    let both = format!("{{\"type\": \"Sequence\", \"pretokenizers\": [{WORDS}, {WORDS}]}}");
    assert_eq!(ids(cutter(&both), "a b"), vec![5, 6]);
}

#[test]
fn pieces_of_no_length_are_refused() {
    assert!(refused(cutter(r#"{"type": "FixedLength", "length": 0}"#)));
    assert_eq!(ids(cutter(r#"{"type": "FixedLength", "length": 1}"#), "ab"), vec![5, 6]);
    let inside = r#"{"type": "Sequence", "pretokenizers": [{"type": "WhitespaceSplit"},
        {"type": "FixedLength", "length": 0}]}"#;
    assert!(refused(cutter(inside)));
}

#[test]
fn a_template_that_asks_for_a_second_text_is_refused() {
    assert!(refused(processor(&template(&format!("{CLS}, {B}"), &format!("{A}, {B}")))));
    assert_eq!(ids(processor(&template(A, &format!("{A}, {B}"))), "b"), vec![6]);

    // A template that gives the text twice hands two texts on, and then asking for both is fine.
    let twice = template(&format!("{A}, {A}"), A);
    let second = template(A, &format!("{B}, {A}"));
    let chain = |parts: &[&str]| {
        format!("{{\"type\": \"Sequence\", \"processors\": [{}]}}", parts.join(", "))
    };
    assert_eq!(ids(processor(&chain(&[&twice, &second])), "a"), vec![5, 5]);
    // Three texts are more than any template takes.
    let thrice = template(&format!("{A}, {A}, {A}"), A);
    assert!(refused(processor(&chain(&[&thrice, &second]))));
    assert_eq!(ids(processor(&chain(&[&thrice])), "a"), vec![5, 5, 5]);
    assert!(refused(processor(&chain(&[&template(CLS, A), &second]))));
}

#[test]
fn a_padding_beyond_memory_is_refused() {
    assert_eq!(ids(padding("{\"Fixed\": 3}", "null"), "a"), vec![5, 0, 0]);
    assert_eq!(ids(padding("\"BatchLongest\"", "4"), "a"), vec![5, 0, 0, 0]);
    assert!(refused(padding("{\"Fixed\": 9223372036854775807}", "null")));
    assert!(refused(padding("{\"Fixed\": 3}", "9223372036854775807")));
    assert!(refused(padding("{\"Fixed\": 1048576}", "1")));
}

#[test]
fn an_added_token_that_comes_to_nothing_is_refused() {
    let strip = r#"{"type": "Strip", "strip_left": true, "strip_right": true}"#;
    let blank = added(9, " ", false, false).replace("\"normalized\": false", "\"normalized\": true");
    assert!(refused(built(strip, WORDS, NONE, NONE, &blank)));
    assert_eq!(ids(built(NONE, WORDS, NONE, NONE, &blank), "a b"), vec![5, 9, 6]);
    let cls = added(1, "[CLS]", false, false);
    assert_eq!(ids(built(strip, WORDS, NONE, NONE, &cls), "a [CLS]"), vec![5, 1]);
}

#[test]
fn blanks_claimed_from_both_sides_are_refused() {
    let tokens = |all: &[String]| built(NONE, WORDS, NONE, NONE, &all.join(", "));
    let right = added(3, "[MASK]", false, true);
    assert!(refused(tokens(&[right.clone(), added(9, " ", true, false)])));
    assert_eq!(ids(tokens(&[right.clone()]), "a"), vec![5]);
    assert_eq!(ids(tokens(&[right.clone(), added(9, " ", true, true)]), "a"), vec![5]);
    assert_eq!(ids(tokens(&[right, added(1, "[CLS]", true, false)]), "a"), vec![5]);
    assert_eq!(ids(tokens(&[added(9, " ", true, false)]), "a"), vec![5]);
}

#[test]
fn what_stands_for_no_character_is_not_reshaped() {
    let chain = |parts: &[&str]| {
        format!("{{\"type\": \"Sequence\", \"normalizers\": [{}]}}", parts.join(", "))
    };
    let nothing = r#"{"type": "Prepend", "prepend": ""}"#;
    let something = r#"{"type": "Prepend", "prepend": "a"}"#;
    let lower = r#"{"type": "Lowercase"}"#;
    let anywhere = r#"{"type": "Replace", "pattern": {"Regex": "x*"}, "content": "a"}"#;
    let gone = r#"{"type": "Replace", "pattern": {"Regex": "x*"}, "content": ""}"#;
    let text = r#"{"type": "Replace", "pattern": {"String": "x"}, "content": "a"}"#;
    assert!(refused(normalizer(&chain(&[nothing, lower]))));
    assert!(refused(normalizer(&chain(&[anywhere, lower]))));
    assert_eq!(ids(normalizer(&chain(&[something, lower])), "B"), vec![7]);
    assert_eq!(ids(normalizer(&chain(&[gone, lower])), "xAx"), vec![5]);
    assert_eq!(ids(normalizer(&chain(&[text, lower])), "xB"), vec![7]);
    assert_eq!(ids(normalizer(&chain(&[lower, nothing])), "A"), vec![5]);
    let bytes = r#"{"type": "ByteLevel", "add_prefix_space": false, "trim_offsets": true,
        "use_regex": false}"#;
    assert!(refused(built(nothing, bytes, NONE, NONE, "")));
    assert_eq!(ids(built(something, bytes, NONE, NONE, ""), "b"), vec![7]);
}

#[test]
fn matches_that_can_overlap_are_refused() {
    let split = |regex: &str| {
        cutter(&format!(
            "{{\"type\": \"Split\", \"pattern\": {{\"Regex\": \"{regex}\"}}, \
             \"behavior\": \"Isolated\", \"invert\": false}}"
        ))
    };
    assert_eq!(ids(split("a|b"), "ab"), vec![5, 6]);
    assert!(refused(split(r"(?<=\\K[ab])b")));
    assert!(refused(split(r"(?:(a|b\\1)c)+")));
    assert!(refused(split(r"(?<x>a)\\k<x>")));
    assert!(refused(split(r"(?P<x>a)(?P=x)")));
    let replaced = r#"{"type": "Replace", "pattern": {"Regex": "(?<=\\K[ab])b"}, "content": ""}"#;
    assert!(refused(normalizer(replaced)));
    // The same signs as a text are no regular expression.
    let literal = r#"{"type": "Replace", "pattern": {"String": "\\K"}, "content": "b"}"#;
    assert_eq!(ids(normalizer(literal), "a\\K"), vec![7]);
}

fn base64(bytes: &[u8]) -> String {
    let digits: Vec<char> =
        "ABCDEFGHIJKLMNOPQRSTUVWXYZabcdefghijklmnopqrstuvwxyz0123456789+/".chars().collect();
    let mut out = String::new();
    for group in bytes.chunks(3) {
        let mut bits = 0u32;
        for k in 0..3 {
            bits = bits * 256 + *group.get(k).unwrap_or(&0) as u32;
        }
        for k in 0..4usize {
            if k <= group.len() {
                out.push(digits[(bits >> (18 - 6 * k) & 63) as usize]);
            } else {
                out.push('=');
            }
        }
    }
    out
}

/// A map whose trie has these units and zeros elsewhere.
fn map(count: usize, units: &[(usize, u32)], texts: &str) -> String {
    let mut all = vec![0u32; count];
    for (i, unit) in units {
        all[*i] = *unit;
    }
    let mut bytes = ((4 * count) as u32).to_le_bytes().to_vec();
    for unit in all {
        bytes.extend(unit.to_le_bytes());
    }
    bytes.extend(texts.as_bytes());
    base64(&bytes)
}

#[test]
fn base64_is_read() {
    assert_eq!(decode(""), Some(vec![]));
    assert_eq!(decode("TQ=="), Some(b"M".to_vec()));
    assert_eq!(decode("TWE="), Some(b"Ma".to_vec()));
    assert_eq!(decode("TWFu"), Some(b"Man".to_vec()));
    assert_eq!(decode("+/8="), Some(vec![251, 255]));
    assert_eq!(decode("TWF"), None);
    assert_eq!(decode("TW=u"), None);
    assert_eq!(decode("T==="), None);
    assert_eq!(decode("TW u"), None);
    let all: Vec<u8> = (0..=255).collect();
    assert_eq!(decode(&base64(&all)), Some(all));
}

#[test]
fn a_character_map_that_is_left_is_refused() {
    // `a` is entered from the root and leads to the value at 200, which is where `b` begins.
    let node = (0x61 ^ 200) << 10 | 1 << 8 | 0x61;
    let value = 1 << 31;
    let good = map(256, &[(0x61, node), (200, value)], "b\0");
    assert!(charsmap(&good));
    let precompiled =
        |map: &str| format!("{{\"type\": \"Precompiled\", \"precompiled_charsmap\": \"{map}\"}}");
    assert_eq!(ids(normalizer(&precompiled(&good)), "a"), vec![6]);
    assert_eq!(ids(normalizer(&precompiled(&good)), "b a"), vec![6, 6]);

    let beyond = map(256, &[(0x61, node), (200, value | 3)], "b\0");
    let inside = map(256, &[(0x61, node), (200, value | 1)], "\u{e9}\0");
    let astray = map(256, &[(0, 256 << 10)], "");
    let short = map(255, &[], "");
    for bad in [&beyond, &inside, &astray, &short, &map(0, &[], ""), &String::new()] {
        assert!(!charsmap(bad));
    }
    for bad in [&beyond, &inside, &astray, &short] {
        assert!(refused(normalizer(&precompiled(bad))));
    }
}

#[test]
fn a_description_is_an_array_of_five_parts() {
    let parts = |n: usize| {
        let mut all: Vec<Value> = (0..n).map(|_| Value::Null).collect();
        all.push(Value::Array(vec![]));
        Value::Array(all)
    };
    assert!(sound(&parts(4)));
    assert!(!sound(&parts(3)));
    assert!(!sound(&parts(5)));
    assert!(!sound(&Value::Null));
    let strange = Value::Object(vec![("type".to_string(), Value::String("Strange".to_string()))]);
    let numbered = Value::Object(vec![("type".to_string(), Value::Number(Number::PosInt(1)))]);
    for part in [strange, numbered] {
        let rest = vec![part, Value::Null, Value::Null, Value::Null, Value::Array(vec![])];
        assert!(!sound(&Value::Array(rest)));
    }
}
