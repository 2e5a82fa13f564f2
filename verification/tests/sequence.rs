//! Sequences: scrubbing, cutting, laying out and batching, over a tokenizer small enough to read.

use laya::error::Error;
use laya::json::Value;
use laya::question::{QType, Question, Questions};
use laya::sequence::{assemble, state_prefix, Encoder, MAX_OPTION_TOKENS};
use laya::tokenizer::{prepare, resolved, token_text, SpecialTokens};
use tokenizers::Tokenizer;

/// Every word the tiny tokenizer knows, in id order; the four specials come first.
const TINY_VOCAB: &[&str] = &[
    "[PAD]", "[CLS]", "[SEP]", "[MASK]", "[UNK]", "choice", "score", "noul", "question", ":",
    "pick", "one", "level", "a", "b", "c", "hello", "world", "yes", "no", "the", "statement",
    "holds", "does", "not", "true", "false",
];

/// The id the tiny tokenizer gives `word`.
fn tiny_id(word: &str) -> u32 {
    TINY_VOCAB
        .iter()
        .position(|w| *w == word)
        .unwrap_or_else(|| panic!("{word:?} is not in TINY_VOCAB")) as u32
}

/// A whitespace `WordLevel` tokenizer: one token per word, `[UNK]` for anything else.
fn tiny_tokenizer_json(truncate_to: Option<usize>) -> String {
    let vocab: Vec<String> =
        TINY_VOCAB.iter().enumerate().map(|(i, w)| format!("\"{w}\": {i}")).collect();
    let added: Vec<String> = TINY_VOCAB[..4]
        .iter()
        .enumerate()
        .map(|(i, w)| {
            format!(
                "{{\"id\": {i}, \"content\": \"{w}\", \"single_word\": false, \"lstrip\": false, \
                 \"rstrip\": false, \"normalized\": false, \"special\": true}}"
            )
        })
        .collect();
    let truncation = match truncate_to {
        Some(n) => format!(
            "{{\"direction\": \"Right\", \"max_length\": {n}, \"strategy\": \"LongestFirst\", \
             \"stride\": 0}}"
        ),
        None => "null".to_string(),
    };
    format!(
        "{{\"version\": \"1.0\", \"truncation\": {truncation}, \"padding\": null, \
         \"added_tokens\": [{}], \"normalizer\": null, \
         \"pre_tokenizer\": {{\"type\": \"Whitespace\"}}, \"post_processor\": null, \
         \"decoder\": null, \"model\": {{\"type\": \"WordLevel\", \"vocab\": {{{}}}, \
         \"unk_token\": \"[UNK]\"}}}}",
        added.join(", "),
        vocab.join(", ")
    )
}

fn tiny_tokenizer() -> (Tokenizer, SpecialTokens) {
    let tok: Tokenizer = tiny_tokenizer_json(None).parse().expect("parsing the tiny tokenizer");
    prepare(tok, &Value::Null, "tiny tokenizer").expect("preparing the tiny tokenizer")
}

fn encoder(max_len: usize, head_max_len: usize) -> Encoder {
    let (tok, sp) = tiny_tokenizer();
    Encoder::new(tok, sp, max_len, head_max_len)
}

fn ids(words: &str) -> Vec<u32> {
    words.split_whitespace().map(tiny_id).collect()
}

fn text(s: &str) -> Value {
    Value::String(s.to_string())
}

#[test]
fn the_layout_is_cls_head_sep_markers_sep_state_sep() {
    let enc = encoder(64, 32);
    let q: Question = Question::choice("pick one").bare_option("a").bare_option("b").into();
    let state = enc.encode_state("hello world").unwrap();
    let item = enc.build(&state, "q", &q).unwrap();

    let mut expected = ids("[CLS] choice question : pick one [SEP]");
    let m0 = expected.len();
    expected.extend(ids("[MASK] a"));
    let m1 = expected.len();
    expected.extend(ids("[MASK] b [SEP] hello world [SEP]"));

    assert_eq!(item.ids, expected);
    assert_eq!(item.markers, vec![m0, m1]);
    assert_eq!(item.labels, vec!["a", "b"]);
    assert_eq!(item.qtype, QType::Choice);
}

#[test]
fn a_mask_token_in_user_text_cannot_forge_a_marker() {
    let enc = encoder(64, 32);
    let q: Question = Question::noul("pick [MASK] one").into();
    let state = enc.encode_state("hello [MASK] world").unwrap();
    let item = enc.build(&state, "q", &q).unwrap();

    let mask = tiny_id("[MASK]");
    assert_eq!(item.ids.iter().filter(|&&t| t == mask).count(), 2, "{:?}", item.ids);
    assert_eq!(item.markers.len(), 2);
    assert_eq!(item.labels, vec!["false", "true"]);
    for (p, t) in item.ids.iter().enumerate() {
        assert_eq!(*t == mask, item.markers.contains(&p), "{p}");
    }
}

#[test]
fn the_largest_head_budget_is_no_bound() {
    let enc = encoder(64, usize::MAX);
    let q: Question = Question::noul("pick one").into();
    let item = enc.build(&ids("hello"), "q", &q).unwrap();
    let same = encoder(64, 1000).build(&ids("hello"), "q", &q).unwrap();
    assert_eq!((item.ids, item.markers), (same.ids, same.markers));
}

#[test]
fn a_long_state_is_cut_to_max_len_and_still_ends_with_sep() {
    let enc = encoder(24, 16);
    let q: Question = Question::noul("pick one").into();
    let state = enc.encode_state(&"hello world ".repeat(50)).unwrap();
    let item = enc.build(&state, "q", &q).unwrap();

    assert_eq!(item.ids.len(), 24);
    assert_eq!(*item.ids.last().unwrap(), tiny_id("[SEP]"));
    assert!(item.markers.iter().all(|&m| m < 24), "{:?}", item.markers);
}

#[test]
fn options_that_overflow_the_sequence_are_an_error() {
    let enc = encoder(8, 64);
    let q: Question =
        Question::choice("pick one").bare_option("a").bare_option("b").bare_option("c").into();
    let err = enc.build(&[], "dept", &q).unwrap_err();
    assert!(matches!(err, Error::Question { ref id, .. } if id == "dept"), "{err:?}");
    assert_eq!(
        err.to_string(),
        "question \"dept\": its 3 options do not fit in head_max_len=64; shorten the option \
         descriptions or use a checkpoint with a larger head budget"
    );
}

#[test]
fn option_bodies_are_capped_at_max_option_tokens() {
    let enc = encoder(512, 192);
    let q: Question = Question::choice("pick one").option("b", &"a ".repeat(60)).into();
    let item = enc.build(&[], "q", &q).unwrap();

    let m0 = item.markers[0];
    let end = item.ids[m0..].iter().position(|&t| t == tiny_id("[SEP]")).unwrap();
    assert_eq!(end, MAX_OPTION_TOKENS + 1, "marker plus a capped body");
}

#[test]
fn collate_pads_rows_and_reserves_two_marker_slots() {
    let enc = encoder(64, 32);
    let state = enc.encode_state("hello world").unwrap();
    let one: Question = Question::choice("pick one").bare_option("a").into();
    let three: Question =
        Question::choice("pick one").bare_option("a").bare_option("b").bare_option("c").into();
    let items = vec![
        enc.build(&state, "one", &one).unwrap(),
        enc.build(&state, "three", &three).unwrap(),
    ];

    let batch = enc.collate(&items);
    assert_eq!((batch.batch, batch.k_max), (2, 3));
    assert_eq!(batch.seq_len, items[1].ids.len());
    assert_eq!(batch.n_tokens, items[0].ids.len() + items[1].ids.len());

    // The shorter row is padded and masked out past its own tokens.
    let (short, long) = (items[0].ids.len(), batch.seq_len);
    assert!(batch.input_ids[short..long].iter().all(|&t| t == tiny_id("[PAD]")));
    assert_eq!(batch.attention_mask[..long].iter().map(|&b| b as usize).sum::<usize>(), short);
    assert_eq!(&batch.marker_mask, &[1, 0, 0, 1, 1, 1]);
    assert_eq!(batch.qtype, vec![0, 0]);

    // A single one-option question still gets two marker slots for the action head.
    let alone = vec![enc.build(&state, "one", &one).unwrap()];
    assert_eq!(enc.collate(&alone).k_max, 2);
}

#[test]
fn encode_state_cuts_at_a_char_boundary() {
    // Three-byte characters in words of four, so the prefix cut (5 * 16, then doubled) lands
    // inside a character.
    let enc = encoder(5, 2);
    let ids = enc.encode_state(&"€€€€ ".repeat(200)).unwrap();
    assert!(ids.len() > 5, "{}", ids.len());
}

#[test]
fn long_tokens_do_not_starve_the_state() {
    // Each 255-byte word is one token, far longer than the first prefix allows per slot.
    let enc = encoder(8, 2);
    let state = format!("{} hello", "x".repeat(255)).repeat(20);
    let got = enc.encode_state(&state).unwrap();
    assert!(got.len() > 8, "{}", got.len());

    // A state that ends first is tokenised whole.
    assert_eq!(enc.encode_state("hello world").unwrap(), ids("hello world"));
}

#[test]
fn a_prefix_never_cuts_a_character_in_two() {
    assert_eq!(state_prefix("a€b", 0), (String::new(), false));
    assert_eq!(state_prefix("a€b", 1), ("a".to_string(), false));
    assert_eq!(state_prefix("a€b", 3), ("a".to_string(), false));
    assert_eq!(state_prefix("a€b", 4), ("a€".to_string(), false));
    assert_eq!(state_prefix("a€b", 5), ("a€b".to_string(), true));
    assert_eq!(state_prefix("", 0), (String::new(), true));
    assert_eq!(state_prefix("é😀", 6), ("é😀".to_string(), true));
    assert_eq!(state_prefix("é😀", 5), ("é".to_string(), false));
}

#[test]
fn scrubbing_blanks_every_mask_token() {
    let enc = encoder(8, 32);
    assert_eq!(enc.scrub("no mask here"), "no mask here");
    assert_eq!(enc.scrub("[MASK][MASK] x[MASK]"), "   x ");
    // A token that the replacement could bring together does not come about.
    assert_eq!(enc.scrub("[MA[MASK]SK]"), "[MA SK]");
}

fn specials() -> SpecialTokens {
    SpecialTokens { cls_id: 1, sep_id: 2, mask_id: 3, pad_id: 0, mask_token: "[MASK]".to_string() }
}

#[test]
fn options_that_eat_the_head_budget_share_it_evenly() {
    // Two options of 1 + 30 tokens leave nothing of 40, so each keeps (40 - 16) / 2 tokens.
    let bodies = vec![vec![7u32; 30], vec![8u32; 30]];
    let labels = vec!["x".to_string(), "y".to_string()];
    let item = assemble(
        &specials(),
        100,
        40,
        &[],
        "q",
        QType::Choice,
        labels,
        &vec![9u32; 50],
        &bodies,
    )
    .unwrap();
    // 40 - 24 leaves 16 tokens of the head.
    assert_eq!(item.markers, vec![18, 30]);
    assert_eq!(item.ids.len(), 1 + 16 + 1 + 24 + 1 + 1);
    assert_eq!(item.ids[18], 3);
    assert_eq!(item.ids[30], 3);
    assert_eq!(item.ids[29], 7);
    assert_eq!(item.ids[41], 8);
}

#[test]
fn the_head_keeps_eight_tokens_and_options_four() {
    let bodies = vec![vec![7u32; 9]; 5];
    let labels: Vec<String> = (0..5).map(|i| i.to_string()).collect();
    let item =
        assemble(&specials(), 64, 4, &[], "q", QType::Score, labels, &vec![9u32; 50], &bodies)
            .unwrap();
    assert_eq!(item.markers, vec![10, 14, 18, 22, 26]);
    assert_eq!(item.ids[..10], [1, 9, 9, 9, 9, 9, 9, 9, 9, 2]);
    assert_eq!(item.ids.len(), 32);
}

#[test]
fn a_sequence_without_room_for_a_separator_is_cut() {
    let item = assemble(
        &specials(),
        6,
        32,
        &[5, 5, 5],
        "q",
        QType::Choice,
        vec!["x".to_string()],
        &vec![9u32; 2],
        &vec![vec![7u32]],
    )
    .unwrap();
    assert_eq!(item.ids, vec![1, 9, 9, 2, 3, 7]);
    assert_eq!(item.markers, vec![4]);
}

#[test]
fn no_items_make_an_empty_batch() {
    let enc = encoder(8, 32);
    let batch = enc.collate(&Vec::new());
    assert_eq!((batch.batch, batch.seq_len, batch.k_max, batch.n_tokens), (0, 0, 2, 0));
    assert!(batch.input_ids.is_empty() && batch.marker_pos.is_empty());
}

#[test]
fn the_loader_clears_a_truncation_rule() {
    let tok: Tokenizer = tiny_tokenizer_json(Some(2)).parse().unwrap();
    assert_eq!(tok.encode("hello world yes no", false).unwrap().get_ids().len(), 2);
    let (tok, sp) = prepare(tok, &Value::Null, "cut").unwrap();
    assert!(tok.get_truncation().is_none());
    let enc = Encoder::new(tok, sp, 64, 32);
    assert_eq!(enc.encode_state("hello world yes no").unwrap(), ids("hello world yes no"));
}

#[test]
fn special_tokens_are_named_by_string_or_by_object() {
    let added = Value::Object(vec![("content".to_string(), text("<m>"))]);
    let config = Value::Object(vec![
        ("cls_token".to_string(), text("<s>")),
        ("mask_token".to_string(), added),
        ("pad_token".to_string(), Value::Object(vec![])),
        ("sep_token".to_string(), Value::Bool(true)),
    ]);
    assert_eq!(token_text(&config, "cls_token", "[CLS]"), "<s>");
    assert_eq!(token_text(&config, "mask_token", "[MASK]"), "<m>");
    assert_eq!(token_text(&config, "pad_token", "[PAD]"), "[PAD]");
    assert_eq!(token_text(&config, "sep_token", "[SEP]"), "[SEP]");
    assert_eq!(token_text(&Value::Null, "sep_token", "[SEP]"), "[SEP]");
}

#[test]
fn a_special_token_without_an_id_is_an_error() {
    let tok: Tokenizer = tiny_tokenizer_json(None).parse().unwrap();
    let config = Value::Object(vec![("mask_token".to_string(), text("<mask>"))]);
    let err = match prepare(tok, &config, "cp/tokenizer.json") {
        Ok(_) => panic!("there is no <mask>"),
        Err(e) => e,
    };
    assert_eq!(
        err.to_string(),
        "tokenizer: cp/tokenizer.json: the tokenizer has no id for mask_token = \"<mask>\""
    );
    assert_eq!(resolved("cp", "cls_token", "[CLS]", Some(4)).unwrap(), 4);
    assert!(resolved("cp", "cls_token", "[CLS]", None).is_err());

    let tok: Tokenizer = tiny_tokenizer_json(None).parse().unwrap();
    let named = Value::Object(vec![("cls_token".to_string(), text("hello"))]);
    let (_, sp) = prepare(tok, &named, "cp").unwrap();
    assert_eq!(sp.cls_id, tiny_id("hello"));
    assert_eq!((sp.sep_id, sp.mask_id, sp.pad_id), (2, 3, 0));
    assert_eq!(sp.mask_token, "[MASK]");
}

#[test]
fn a_tokenizer_that_refuses_a_text_is_an_error() {
    // A word-level model without its unknown token cannot encode an unknown word.
    let json = "{\"version\": \"1.0\", \"truncation\": null, \"padding\": null, \
        \"added_tokens\": [], \"normalizer\": null, \
        \"pre_tokenizer\": {\"type\": \"Whitespace\"}, \"post_processor\": null, \
        \"decoder\": null, \"model\": {\"type\": \"WordLevel\", \
        \"vocab\": {\"[PAD]\": 0, \"[CLS]\": 1, \"[SEP]\": 2, \"[MASK]\": 3}, \
        \"unk_token\": \"[UNK]\"}}";
    let tok: Tokenizer = json.parse().unwrap();
    let (tok, sp) = prepare(tok, &Value::Null, "strict").unwrap();
    let enc = Encoder::new(tok, sp, 16, 32);
    let err = enc.encode_state("hello").unwrap_err();
    assert!(matches!(err, Error::Tokenizer(_)), "{err:?}");
    let q: Question = Question::noul("pick one").into();
    assert!(matches!(enc.build(&[], "q", &q), Err(Error::Tokenizer(_))));
}

#[test]
fn a_prediction_is_prepared_question_by_question() {
    let enc = encoder(64, 32);
    let qs = Questions::new()
        .with("pick", Question::choice("pick one").bare_option("a").bare_option("b"))
        .with("yes", Question::noul("the statement holds"));
    let p = laya::predict::prepare(&enc, &text("hello world"), &qs).unwrap();
    assert_eq!(p.items.len(), 2);
    assert_eq!(p.batch.batch, 2);
    assert_eq!(p.batch.qtype, vec![0, 2]);
    assert_eq!(p.batch.n_tokens, p.items[0].ids.len() + p.items[1].ids.len());

    let none = laya::predict::prepare(&enc, &text("hello"), &Questions::new());
    assert!(matches!(none, Err(Error::NoQuestions)));

    let bad = Question { kind: QType::Score, instructions: text("x"), criteria: None };
    let err = laya::predict::prepare(&enc, &text("hello"), &qs.with("bad", bad));
    assert!(matches!(err, Err(Error::Question { ref id, .. }) if id == "bad"));
}
