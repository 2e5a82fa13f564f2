//! What a tokenizer is made of, and whether it can be run on every text.
//!
//! A tokenizer is a pipeline: normalizers, pre-tokenizers, a model, post-processors and padding,
//! beside a list of added tokens. Any of its parts but the model can be set up so that running it
//! panics:
//!
//! - A normalizer can put characters in front of a text that stand for none of its own characters.
//!   What changes the text as a whole afterwards loses count of it.
//! - A normalizer can look a text up in a table and leave the table.
//! - A pre-tokenizer can cut a text into pieces of no length.
//! - A regular expression can have matches that overlap.
//! - A post-processor can ask for a second text, which is not there.
//! - A padding can be longer than memory has room for.
//! - An added token can be empty once it is normalized, or be a blank that two others claim, one
//!   from either side.
//!
//! The functions here read a tokenizer's description and tell whether none of that can happen.

use vstd::prelude::*;
use vstd::string::*;

use crate::charsmap::{charsmap, is_charsmap};
use crate::json::{field, seen, unsigned_of, Json, Numeral, Value};
use crate::lang::{among, listed};
use crate::text::{
    chars_of, is_digit, is_white, law_trimming_takes_white_ends, occurs_at, same_text, trim, trimmed,
};

verus! {

/// How deep parts of a pipeline may be nested in one another.
pub const NESTING: usize = 128;

/// How many tokens a padding may fill.
pub const LONGEST_PADDING: u64 = 1_048_576;

/// Normalizers that change a text as a whole.
pub const RESHAPING: [&'static str; 10] = [
    "NFC",
    "NFD",
    "NFKC",
    "NFKD",
    "Lowercase",
    "Nmt",
    "Strip",
    "StripAccents",
    "BertNormalizer",
    "ByteLevel",
];

/// Pre-tokenizers that cut a text between its characters.
pub const CUTTING: [&'static str; 8] = [
    "BertPreTokenizer",
    "CharDelimiterSplit",
    "Metaspace",
    "Whitespace",
    "WhitespaceSplit",
    "Punctuation",
    "Digits",
    "UnicodeScripts",
];

/// Post-processors that leave the number of texts as it is.
pub const PASSING: [&'static str; 3] = ["ByteLevel", "BertProcessing", "RobertaProcessing"];

// ----------------------------------------------------------------------- reading a description

/// What kind of part this is.
pub open spec fn kind_of(part: Json) -> Seq<char> {
    match field(part, "type"@) {
        Some(Json::Text(s)) => s,
        _ => Seq::empty(),
    }
}

/// The array that a part holds under `key`; an empty one when there is none.
pub open spec fn parts_of(part: Json, key: Seq<char>) -> Seq<Json> {
    match field(part, key) {
        Some(Json::Array(items)) => items,
        _ => Seq::empty(),
    }
}

/// Whether a part holds `true` under `key`.
pub open spec fn says(part: Json, key: Seq<char>) -> bool {
    field(part, key) == Some(Json::Bool(true))
}

/// Values, mathematically.
pub open spec fn jsons(v: Seq<Value>) -> Seq<Json> {
    Seq::new(v.len(), |i: int| v[i]@)
}

fn kind(part: &Value) -> (r: String)
    ensures
        r@ == kind_of(part@),
{
    match part.get("type") {
        Some(Value::String(s)) => s.clone(),
        _ => String::new(),
    }
}

fn has(part: &Value, key: &str) -> (r: bool)
    ensures
        r == says(part@, key@),
{
    match part.get(key) {
        Some(Value::Bool(b)) => *b,
        _ => false,
    }
}

fn is_empty(s: &str) -> (r: bool)
    ensures
        r == (s@.len() == 0),
{
    proof {
        reveal_strlit("");
        if s@.len() == 0 {
            assert(s@ =~= ""@);
        }
    }
    same_text(s, "")
}

fn is_null(v: &Value) -> (r: bool)
    ensures
        r == (v@ == Json::Null),
{
    match v {
        Value::Null => true,
        _ => false,
    }
}

/// The values of an array, if this is one.
fn items(v: Option<&Value>) -> (r: Option<&Vec<Value>>)
    ensures
        match r {
            Some(a) => seen(v) == Some(Json::Array(jsons(a@))),
            None => !(seen(v) matches Some(Json::Array(_))),
        },
{
    match v {
        Some(Value::Array(a)) => {
            assert(seen(v)->0->Array_0 =~= jsons(a@));
            Some(a)
        },
        _ => None,
    }
}

// ----------------------------------------------------------------------- patterns

/// Whether a regular expression says at `i` something that can make its matches overlap or a match
/// read a group backwards: where the match begins (`\K`), or what a group matched (`\1`, `\k` or
/// `(?P=`).
pub open spec fn is_wild_at(s: Seq<char>, i: int) -> bool {
    ||| s[i] == '\\' && i + 1 < s.len() && (s[i + 1] == 'K' || s[i + 1] == 'k' || is_digit(s[i + 1]))
    ||| s[i] == '?' && i + 2 < s.len() && s[i + 1] == 'P' && s[i + 2] == '='
}

/// Whether a regular expression leaves the beginning of a match alone and refers to no group.
pub open spec fn is_tame(s: Seq<char>) -> bool {
    forall|i: int| 0 <= i < s.len() ==> !(#[trigger] is_wild_at(s, i))
}

/// Whether a part has a pattern whose matches follow one another: a text, or a tame regular
/// expression.
pub open spec fn has_tame_pattern(part: Json) -> bool {
    match field(part, "pattern"@) {
        Some(p) => match field(p, "String"@) {
            Some(Json::Text(_)) => true,
            _ => match field(p, "Regex"@) {
                Some(Json::Text(s)) => is_tame(s),
                _ => false,
            },
        },
        None => false,
    }
}

fn tame(s: &str) -> (r: bool)
    ensures
        r == is_tame(s@),
{
    let text = chars_of(s);
    let n: usize = text.len();
    for i in 0..n
        invariant
            text@ == s@,
            n == text@.len(),
            forall|j: int| 0 <= j < i ==> !(#[trigger] is_wild_at(s@, j)),
    {
        let rest: usize = n - i;
        if text[i] == '\\' && rest > 1 && (text[i + 1] == 'K' || text[i + 1] == 'k' || ('0'
            <= text[i + 1] && text[i + 1] <= '9')) {
            assert(is_wild_at(s@, i as int));
            return false;
        }
        if text[i] == '?' && rest > 2 && text[i + 1] == 'P' && text[i + 2] == '=' {
            assert(is_wild_at(s@, i as int));
            return false;
        }
    }
    true
}

fn tame_pattern(part: &Value) -> (r: bool)
    ensures
        r == has_tame_pattern(part@),
{
    match part.get("pattern") {
        Some(p) => match p.get("String") {
            Some(Value::String(_)) => true,
            _ => match p.get("Regex") {
                Some(Value::String(s)) => tame(s.as_str()),
                _ => false,
            },
        },
        None => false,
    }
}

// ----------------------------------------------------------------------- normalizers

/// Whether a replacement can put something where nothing was: its pattern is not known to match a
/// character, and its content is not empty.
pub open spec fn can_insert(part: Json) -> bool {
    let pattern = match field(part, "pattern"@) {
        Some(p) => field(p, "String"@),
        None => None,
    };
    &&& field(part, "content"@) != Some(Json::Text(Seq::empty()))
    &&& !(pattern matches Some(Json::Text(s)) && s.len() > 0)
}

/// Runs a normalizer on texts that begin with characters of their own or, when `loose`, may not:
/// whether its results may not, or nothing when running it can panic.
pub open spec fn normalized_by(part: Json, loose: bool, depth: nat) -> Option<bool>
    decreases depth, 0nat,
{
    if depth == 0 {
        None
    } else if part == Json::Null {
        Some(loose)
    } else if kind_of(part) == "Sequence"@ {
        normalized_by_all(parts_of(part, "normalizers"@), loose, (depth - 1) as nat)
    } else if listed(RESHAPING@, kind_of(part)) {
        if loose {
            None
        } else {
            Some(false)
        }
    } else if kind_of(part) == "Precompiled"@ {
        match field(part, "precompiled_charsmap"@) {
            Some(Json::Text(s)) => if loose || !is_charsmap(s) {
                None
            } else {
                Some(false)
            },
            _ => None,
        }
    } else if kind_of(part) == "Prepend"@ {
        match field(part, "prepend"@) {
            Some(Json::Text(s)) => Some(loose || s.len() == 0),
            _ => None,
        }
    } else if kind_of(part) == "Replace"@ {
        if has_tame_pattern(part) {
            Some(loose || can_insert(part))
        } else {
            None
        }
    } else {
        None
    }
}

/// Runs normalizers one after the other.
pub open spec fn normalized_by_all(parts: Seq<Json>, loose: bool, depth: nat) -> Option<bool>
    decreases depth, parts.len(),
{
    if parts.len() == 0 {
        Some(loose)
    } else {
        match normalized_by_all(parts.drop_last(), loose, depth) {
            None => None,
            Some(now) => normalized_by(parts.last(), now, depth),
        }
    }
}

fn inserts(part: &Value) -> (r: bool)
    ensures
        r == can_insert(part@),
{
    let content = match part.get("content") {
        Some(v) => v.as_str(),
        None => None,
    };
    let pattern = match part.get("pattern") {
        Some(p) => match p.get("String") {
            Some(v) => v.as_str(),
            None => None,
        },
        None => None,
    };
    let nothing = match content {
        Some(s) => is_empty(s),
        None => false,
    };
    let solid = match pattern {
        Some(s) => !is_empty(s),
        None => false,
    };
    proof {
        if content is Some && (content->0)@.len() == 0 {
            assert((content->0)@ =~= Seq::empty());
        }
    }
    !nothing && !solid
}

fn normalize(part: &Value, loose: bool, depth: usize) -> (r: Option<bool>)
    ensures
        r == normalized_by(part@, loose, depth as nat),
    decreases depth,
{
    if depth == 0 {
        return None;
    }
    if is_null(part) {
        return Some(loose);
    }
    let kind = kind(part);
    if same_text(kind.as_str(), "Sequence") {
        let mut now: bool = loose;
        let inner: usize = depth - 1;
        if let Some(parts) = items(part.get("normalizers")) {
            let ghost all = jsons(parts@);
            assert(all.take(0) =~= Seq::empty());
            for i in 0..parts.len()
                invariant
                    inner < depth,
                    all == jsons(parts@),
                    normalized_by_all(all.take(i as int), loose, inner as nat) == Some(now),
                    part@ != Json::Null,
                    kind_of(part@) == "Sequence"@,
                    parts_of(part@, "normalizers"@) == all,
                    inner == depth - 1,
            {
                assert(all.take(i + 1).drop_last() =~= all.take(i as int));
                match normalize(&parts[i], now, inner) {
                    Some(next) => {
                        now = next;
                    },
                    None => {
                        proof {
                            lemma_normalized_none(all, loose, inner as nat, i + 1);
                        }
                        return None;
                    },
                }
            }
            assert(all.take(all.len() as int) =~= all);
        }
        return Some(now);
    }
    if among(RESHAPING.as_slice(), kind.as_str()) {
        return if loose {
            None
        } else {
            Some(false)
        };
    }
    if same_text(kind.as_str(), "Precompiled") {
        return match part.get("precompiled_charsmap") {
            Some(Value::String(s)) => if loose || !charsmap(s.as_str()) {
                None
            } else {
                Some(false)
            },
            _ => None,
        };
    }
    if same_text(kind.as_str(), "Prepend") {
        return match part.get("prepend") {
            Some(Value::String(s)) => Some(loose || is_empty(s.as_str())),
            _ => None,
        };
    }
    if same_text(kind.as_str(), "Replace") {
        return if tame_pattern(part) {
            Some(loose || inserts(part))
        } else {
            None
        };
    }
    None
}

/// What cannot be run part of the way cannot be run.
proof fn lemma_normalized_none(parts: Seq<Json>, loose: bool, depth: nat, n: int)
    requires
        0 <= n <= parts.len(),
        normalized_by_all(parts.take(n), loose, depth) is None,
    ensures
        normalized_by_all(parts, loose, depth) is None,
    decreases parts.len() - n,
{
    if n == parts.len() {
        assert(parts.take(n) =~= parts);
    } else {
        assert(parts.take(n + 1).drop_last() =~= parts.take(n));
        lemma_normalized_none(parts, loose, depth, n + 1);
    }
}

// ----------------------------------------------------------------------- pre-tokenizers

/// Runs a pre-tokenizer on texts that begin with characters of their own or, when `loose`, may
/// not: whether its pieces may not, or nothing when running it can panic.
pub open spec fn cut_by(part: Json, loose: bool, depth: nat) -> Option<bool>
    decreases depth, 0nat,
{
    if depth == 0 {
        None
    } else if part == Json::Null {
        Some(loose)
    } else if kind_of(part) == "Sequence"@ {
        cut_by_all(parts_of(part, "pretokenizers"@), loose, (depth - 1) as nat)
    } else if kind_of(part) == "ByteLevel"@ {
        if loose {
            None
        } else {
            Some(false)
        }
    } else if kind_of(part) == "FixedLength"@ {
        match field(part, "length"@) {
            Some(v) => match unsigned_of(v) {
                Some(n) => if n > 0 {
                    Some(loose)
                } else {
                    None
                },
                None => None,
            },
            None => None,
        }
    } else if kind_of(part) == "Split"@ {
        if has_tame_pattern(part) {
            Some(loose)
        } else {
            None
        }
    } else if listed(CUTTING@, kind_of(part)) {
        Some(loose)
    } else {
        None
    }
}

/// Runs pre-tokenizers one after the other.
pub open spec fn cut_by_all(parts: Seq<Json>, loose: bool, depth: nat) -> Option<bool>
    decreases depth, parts.len(),
{
    if parts.len() == 0 {
        Some(loose)
    } else {
        match cut_by_all(parts.drop_last(), loose, depth) {
            None => None,
            Some(now) => cut_by(parts.last(), now, depth),
        }
    }
}

fn cut(part: &Value, loose: bool, depth: usize) -> (r: Option<bool>)
    ensures
        r == cut_by(part@, loose, depth as nat),
    decreases depth,
{
    if depth == 0 {
        return None;
    }
    if is_null(part) {
        return Some(loose);
    }
    let kind = kind(part);
    if same_text(kind.as_str(), "Sequence") {
        let mut now: bool = loose;
        let inner: usize = depth - 1;
        if let Some(parts) = items(part.get("pretokenizers")) {
            let ghost all = jsons(parts@);
            assert(all.take(0) =~= Seq::empty());
            for i in 0..parts.len()
                invariant
                    inner < depth,
                    all == jsons(parts@),
                    cut_by_all(all.take(i as int), loose, inner as nat) == Some(now),
                    part@ != Json::Null,
                    kind_of(part@) == "Sequence"@,
                    parts_of(part@, "pretokenizers"@) == all,
                    inner == depth - 1,
            {
                assert(all.take(i + 1).drop_last() =~= all.take(i as int));
                match cut(&parts[i], now, inner) {
                    Some(next) => {
                        now = next;
                    },
                    None => {
                        proof {
                            lemma_cut_none(all, loose, inner as nat, i + 1);
                        }
                        return None;
                    },
                }
            }
            assert(all.take(all.len() as int) =~= all);
        }
        return Some(now);
    }
    if same_text(kind.as_str(), "ByteLevel") {
        return if loose {
            None
        } else {
            Some(false)
        };
    }
    if same_text(kind.as_str(), "FixedLength") {
        return match part.get("length") {
            Some(v) => match v.as_u64() {
                Some(n) => if n > 0 {
                    Some(loose)
                } else {
                    None
                },
                None => None,
            },
            None => None,
        };
    }
    if same_text(kind.as_str(), "Split") {
        return if tame_pattern(part) {
            Some(loose)
        } else {
            None
        };
    }
    if among(CUTTING.as_slice(), kind.as_str()) {
        return Some(loose);
    }
    None
}

proof fn lemma_cut_none(parts: Seq<Json>, loose: bool, depth: nat, n: int)
    requires
        0 <= n <= parts.len(),
        cut_by_all(parts.take(n), loose, depth) is None,
    ensures
        cut_by_all(parts, loose, depth) is None,
    decreases parts.len() - n,
{
    if n == parts.len() {
        assert(parts.take(n) =~= parts);
    } else {
        assert(parts.take(n + 1).drop_last() =~= parts.take(n));
        lemma_cut_none(parts, loose, depth, n + 1);
    }
}

// ----------------------------------------------------------------------- post-processors

/// How many texts a template makes when special tokens are left out, or nothing when it asks for a
/// second text and there is none.
pub open spec fn pieces_count(pieces: Seq<Json>, second: bool) -> Option<nat>
    decreases pieces.len(),
{
    if pieces.len() == 0 {
        Some(0)
    } else {
        match pieces_count(pieces.drop_last(), second) {
            None => None,
            Some(n) => match field(pieces.last(), "Sequence"@) {
                None => Some(n),
                Some(text) => if field(text, "id"@) == Some(Json::Text("A"@)) {
                    Some(n + 1)
                } else if second && field(text, "id"@) == Some(Json::Text("B"@)) {
                    Some(n + 1)
                } else {
                    None
                },
            },
        }
    }
}

/// Runs a post-processor on `n` texts, without special tokens: how many texts it leaves, or nothing
/// when running it can panic.
pub open spec fn processed_by(part: Json, n: nat, depth: nat) -> Option<nat>
    decreases depth, 0nat,
{
    if depth == 0 {
        None
    } else if part == Json::Null {
        Some(n)
    } else if kind_of(part) == "Sequence"@ {
        processed_by_all(parts_of(part, "processors"@), n, (depth - 1) as nat)
    } else if listed(PASSING@, kind_of(part)) {
        Some(n)
    } else if kind_of(part) == "TemplateProcessing"@ {
        if n == 1 {
            pieces_count(parts_of(part, "single"@), false)
        } else if n == 2 {
            pieces_count(parts_of(part, "pair"@), true)
        } else {
            None
        }
    } else {
        None
    }
}

/// Runs post-processors one after the other.
pub open spec fn processed_by_all(parts: Seq<Json>, n: nat, depth: nat) -> Option<nat>
    decreases depth, parts.len(),
{
    if parts.len() == 0 {
        Some(n)
    } else {
        match processed_by_all(parts.drop_last(), n, depth) {
            None => None,
            Some(now) => processed_by(parts.last(), now, depth),
        }
    }
}

/// A count, mathematically.
pub open spec fn counted_texts(n: Option<usize>) -> Option<nat> {
    match n {
        Some(n) => Some(n as nat),
        None => None,
    }
}

fn count_pieces(part: &Value, key: &str, second: bool) -> (r: Option<usize>)
    ensures
        counted_texts(r) == pieces_count(parts_of(part@, key@), second),
{
    let mut count: usize = 0;
    if let Some(pieces) = items(part.get(key)) {
        let ghost all = jsons(pieces@);
        assert(all.take(0) =~= Seq::empty());
        for i in 0..pieces.len()
            invariant
                all == jsons(pieces@),
                parts_of(part@, key@) == all,
                count <= i,
                pieces_count(all.take(i as int), second) == Some(count as nat),
        {
            assert(all.take(i + 1).drop_last() =~= all.take(i as int));
            if let Some(text) = pieces[i].get("Sequence") {
                let id = match text.get("id") {
                    Some(v) => v.as_str(),
                    None => None,
                };
                let known = match id {
                    Some(s) => same_text(s, "A") || (second && same_text(s, "B")),
                    None => false,
                };
                if known {
                    count = count + 1;
                } else {
                    proof {
                        lemma_pieces_none(all, second, i + 1);
                    }
                    return None;
                }
            }
        }
        assert(all.take(all.len() as int) =~= all);
    }
    Some(count)
}

proof fn lemma_pieces_none(pieces: Seq<Json>, second: bool, n: int)
    requires
        0 <= n <= pieces.len(),
        pieces_count(pieces.take(n), second) is None,
    ensures
        pieces_count(pieces, second) is None,
    decreases pieces.len() - n,
{
    if n == pieces.len() {
        assert(pieces.take(n) =~= pieces);
    } else {
        assert(pieces.take(n + 1).drop_last() =~= pieces.take(n));
        lemma_pieces_none(pieces, second, n + 1);
    }
}

fn process(part: &Value, n: usize, depth: usize) -> (r: Option<usize>)
    ensures
        counted_texts(r) == processed_by(part@, n as nat, depth as nat),
    decreases depth,
{
    if depth == 0 {
        return None;
    }
    if is_null(part) {
        return Some(n);
    }
    let kind = kind(part);
    if same_text(kind.as_str(), "Sequence") {
        let mut now: usize = n;
        let inner: usize = depth - 1;
        if let Some(parts) = items(part.get("processors")) {
            let ghost all = jsons(parts@);
            assert(all.take(0) =~= Seq::empty());
            for i in 0..parts.len()
                invariant
                    inner < depth,
                    all == jsons(parts@),
                    processed_by_all(all.take(i as int), n as nat, inner as nat) == Some(
                        now as nat,
                    ),
                    part@ != Json::Null,
                    kind_of(part@) == "Sequence"@,
                    parts_of(part@, "processors"@) == all,
                    inner == depth - 1,
            {
                assert(all.take(i + 1).drop_last() =~= all.take(i as int));
                match process(&parts[i], now, inner) {
                    Some(next) => {
                        now = next;
                    },
                    None => {
                        proof {
                            lemma_processed_none(all, n as nat, inner as nat, i + 1);
                        }
                        return None;
                    },
                }
            }
            assert(all.take(all.len() as int) =~= all);
        }
        return Some(now);
    }
    if among(PASSING.as_slice(), kind.as_str()) {
        return Some(n);
    }
    if same_text(kind.as_str(), "TemplateProcessing") {
        if n == 1 {
            return count_pieces(part, "single", false);
        }
        if n == 2 {
            return count_pieces(part, "pair", true);
        }
    }
    None
}

proof fn lemma_processed_none(parts: Seq<Json>, n: nat, depth: nat, k: int)
    requires
        0 <= k <= parts.len(),
        processed_by_all(parts.take(k), n, depth) is None,
    ensures
        processed_by_all(parts, n, depth) is None,
    decreases parts.len() - k,
{
    if k == parts.len() {
        assert(parts.take(k) =~= parts);
    } else {
        assert(parts.take(k + 1).drop_last() =~= parts.take(k));
        lemma_processed_none(parts, n, depth, k + 1);
    }
}

// ----------------------------------------------------------------------- padding

/// The length that a padding fixes, or zero when it fixes none.
pub open spec fn fixed_padding(padding: Json) -> Option<u64> {
    match field(padding, "strategy"@) {
        Some(Json::Text(s)) => Some(0),
        Some(strategy) => match field(strategy, "Fixed"@) {
            Some(v) => unsigned_of(v),
            None => None,
        },
        None => None,
    }
}

/// The number whose multiples a padding goes up to, or zero when there is none.
pub open spec fn padding_step(padding: Json) -> Option<u64> {
    match field(padding, "pad_to_multiple_of"@) {
        None => Some(0),
        Some(Json::Null) => Some(0),
        Some(v) => unsigned_of(v),
    }
}

/// Whether a padding stays below what memory can hold.
pub open spec fn pads_within_memory(padding: Json) -> bool {
    padding == Json::Null || match (fixed_padding(padding), padding_step(padding)) {
        (Some(fixed), Some(step)) => fixed + step <= LONGEST_PADDING,
        _ => false,
    }
}

fn fits_memory(padding: &Value) -> (r: bool)
    ensures
        r == pads_within_memory(padding@),
{
    if is_null(padding) {
        return true;
    }
    let fixed = match padding.get("strategy") {
        Some(Value::String(_)) => Some(0u64),
        Some(strategy) => match strategy.get("Fixed") {
            Some(v) => v.as_u64(),
            None => None,
        },
        None => None,
    };
    let step = match padding.get("pad_to_multiple_of") {
        None => Some(0u64),
        Some(Value::Null) => Some(0u64),
        Some(v) => v.as_u64(),
    };
    match (fixed, step) {
        (Some(fixed), Some(step)) => {
            fixed <= LONGEST_PADDING && step <= LONGEST_PADDING - fixed
        },
        _ => false,
    }
}

// ----------------------------------------------------------------------- added tokens

/// Whether a token claims the blanks behind it.
pub open spec fn claims_behind(token: Json) -> bool {
    says(token, "rstrip"@)
}

/// Whether a token claims the blanks in front of it and none behind it.
pub open spec fn claims_in_front(token: Json) -> bool {
    says(token, "lstrip"@) && !says(token, "rstrip"@)
}

/// Whether one of the tokens claims the blanks behind it.
pub open spec fn some_behind(tokens: Seq<Json>) -> bool {
    exists|i: int| 0 <= i < tokens.len() && claims_behind(#[trigger] tokens[i])
}

/// Whether one of the tokens claims the blanks in front of it and none behind it.
pub open spec fn some_in_front(tokens: Seq<Json>) -> bool {
    exists|i: int| 0 <= i < tokens.len() && claims_in_front(#[trigger] tokens[i])
}

/// Whether of some tokens one claims the blanks behind it, and another those in front of it.
pub open spec fn claim_from_both_sides(tokens: Json) -> bool {
    tokens matches Json::Array(all) && some_behind(all) && some_in_front(all)
}

fn from_both_sides(tokens: &Value) -> (r: bool)
    ensures
        r == claim_from_both_sides(tokens@),
{
    match items(Some(tokens)) {
        None => false,
        Some(list) => {
            let ghost all = jsons(list@);
            let mut behind: bool = false;
            let mut in_front: bool = false;
            for i in 0..list.len()
                invariant
                    all == jsons(list@),
                    behind == exists|j: int| 0 <= j < i && claims_behind(#[trigger] all[j]),
                    in_front == exists|j: int| 0 <= j < i && claims_in_front(#[trigger] all[j]),
            {
                assert(all[i as int] == list@[i as int]@);
                let right = has(&list[i], "rstrip");
                let left = has(&list[i], "lstrip");
                if right {
                    behind = true;
                }
                if left && !right {
                    in_front = true;
                }
            }
            assert(all.len() == list@.len());
            behind && in_front
        },
    }
}

// ----------------------------------------------------------------------- the whole

/// Whether a description is an array of the normalizer, the pre-tokenizer, the post-processor, the
/// padding and the added tokens, of which the first four can be run on every text.
pub open spec fn is_sound(description: Json) -> bool {
    description matches Json::Array(parts) && parts.len() == 5 && (match normalized_by(
        parts[0],
        false,
        NESTING as nat,
    ) {
        None => false,
        Some(loose) => cut_by(parts[1], loose, NESTING as nat) is Some,
    }) && processed_by(parts[2], 1, NESTING as nat) is Some && pads_within_memory(parts[3])
}

/// Whether a blank among the added tokens could be claimed by two others, one from either side.
pub open spec fn minds_blanks(description: Json) -> bool {
    description matches Json::Array(parts) && parts.len() == 5 && claim_from_both_sides(parts[4])
}

/// Whether this describes parts that can be run on every text.
pub fn sound(description: &Value) -> (r: bool)
    ensures
        r == is_sound(description@),
{
    match items(Some(description)) {
        None => false,
        Some(parts) => {
            let ghost all = jsons(parts@);
            if parts.len() != 5 {
                return false;
            }
            assert(all[0] == parts@[0]@ && all[1] == parts@[1]@ && all[2] == parts@[2]@ && all[3]
                == parts@[3]@);
            let text_side = match normalize(&parts[0], false, NESTING) {
                None => false,
                Some(loose) => cut(&parts[1], loose, NESTING).is_some(),
            };
            text_side && process(&parts[2], 1, NESTING).is_some() && fits_memory(&parts[3])
        },
    }
}

/// Whether a blank among the added tokens could be claimed by two others, one from either side.
pub fn blanks_matter(description: &Value) -> (r: bool)
    ensures
        r == minds_blanks(description@),
{
    match items(Some(description)) {
        None => false,
        Some(parts) => {
            let ghost all = jsons(parts@);
            if parts.len() != 5 {
                return false;
            }
            assert(all[4] == parts@[4]@);
            from_both_sides(&parts[4])
        },
    }
}

/// Whether an added token that is written as `text`, and is looked for as `form` in normalized
/// texts, is something to look for: it is not empty and, where blanks matter, not blank.
pub open spec fn is_token(text: Seq<char>, form: Seq<char>, blanks: bool) -> bool {
    if blanks {
        trimmed(text).len() > 0 && trimmed(form).len() > 0
    } else {
        form.len() > 0
    }
}

/// Whether an added token that is written as `text`, and is looked for as `form` in normalized
/// texts, is something to look for.
pub fn token(text: &str, form: &str, blanks: bool) -> (r: bool)
    ensures
        r == is_token(text@, form@, blanks),
{
    if blanks {
        !is_empty(trim(text).as_str()) && !is_empty(trim(form).as_str())
    } else {
        !is_empty(form)
    }
}

// ----------------------------------------------------------------------- laws

/// Normalizers in a row work one after the other, and so do pre-tokenizers and post-processors: one that
/// is refused makes the row refused, and otherwise the next begins where the last ended.
pub proof fn law_parts_in_a_row(a: Seq<Json>, b: Seq<Json>, loose: bool, n: nat, depth: nat)
    ensures
        normalized_by_all(a + b, loose, depth) == match normalized_by_all(a, loose, depth) {
            Some(now) => normalized_by_all(b, now, depth),
            None => None,
        },
        cut_by_all(a + b, loose, depth) == match cut_by_all(a, loose, depth) {
            Some(now) => cut_by_all(b, now, depth),
            None => None,
        },
        processed_by_all(a + b, n, depth) == match processed_by_all(a, n, depth) {
            Some(now) => processed_by_all(b, now, depth),
            None => None,
        },
    decreases b.len(),
{
    if b.len() == 0 {
        assert(a + b =~= a);
    } else {
        assert((a + b).drop_last() =~= a + b.drop_last());
        law_parts_in_a_row(a, b.drop_last(), loose, n, depth);
    }
}

/// A part that is missing does nothing. Otherwise a normalizer is accepted only when it is of a known
/// kind; and one that reshapes the text is refused behind one that may have inserted into it.
pub proof fn law_known_normalizers(part: Json, loose: bool, depth: nat)
    requires
        depth > 0,
    ensures
        normalized_by(Json::Null, loose, depth) == Some(loose),
        normalized_by(part, loose, depth) is Some ==> part == Json::Null || {
            let k = kind_of(part);
            ||| k == "Sequence"@ || k == "NFC"@ || k == "NFD"@ || k == "NFKC"@ || k == "NFKD"@
            ||| k == "Lowercase"@ || k == "Nmt"@ || k == "Strip"@ || k == "StripAccents"@
            ||| k == "BertNormalizer"@ || k == "ByteLevel"@ || k == "Precompiled"@ || k == "Prepend"@
            ||| k == "Replace"@
        },
        loose && normalized_by(part, loose, depth) is Some && part != Json::Null && kind_of(part)
            != "Sequence"@ ==> kind_of(part) == "Prepend"@ || kind_of(part) == "Replace"@,
        loose && normalized_by(part, loose, depth) is Some && kind_of(part) != "Sequence"@
            ==> normalized_by(part, loose, depth) == Some(true),
{
    let list = RESHAPING@;
    assert(list.len() == 10);
    assert(list[0]@ == "NFC"@ && list[1]@ == "NFD"@ && list[2]@ == "NFKC"@ && list[3]@ == "NFKD"@);
    assert(list[4]@ == "Lowercase"@ && list[5]@ == "Nmt"@ && list[6]@ == "Strip"@);
    assert(list[7]@ == "StripAccents"@ && list[8]@ == "BertNormalizer"@ && list[9]@
        == "ByteLevel"@);
}

/// A pre-tokenizer is accepted only when it is of a known kind: one that goes by bytes not behind what may
/// have inserted into the text, one that cuts to a length only with a length, and one that splits only
/// at a pattern that cannot run away. None changes whether something may have been inserted, but for the
/// one that goes by bytes, which requires that nothing was.
pub proof fn law_known_pre_tokenizers(part: Json, loose: bool, depth: nat)
    requires
        depth > 0,
    ensures
        cut_by(Json::Null, loose, depth) == Some(loose),
        cut_by(part, loose, depth) is Some ==> part == Json::Null || {
            let k = kind_of(part);
            ||| k == "Sequence"@ || k == "ByteLevel"@ || k == "FixedLength"@ || k == "Split"@
            ||| k == "BertPreTokenizer"@ || k == "CharDelimiterSplit"@ || k == "Metaspace"@
            ||| k == "Whitespace"@ || k == "WhitespaceSplit"@ || k == "Punctuation"@ || k == "Digits"@
            ||| k == "UnicodeScripts"@
        },
        part != Json::Null && kind_of(part) == "ByteLevel"@ && loose ==> cut_by(part, loose, depth)
            is None,
        part != Json::Null && kind_of(part) == "Split"@ && cut_by(part, loose, depth) is Some
            ==> has_tame_pattern(part),
        part != Json::Null && kind_of(part) == "FixedLength"@ && cut_by(part, loose, depth) is Some
            ==> (field(part, "length"@) matches Some(Json::Number(Numeral::PosInt(n))) && n > 0),
        kind_of(part) != "Sequence"@ && cut_by(part, loose, depth) is Some ==> cut_by(
            part,
            loose,
            depth,
        ) == Some(loose),
{
    reveal_strlit("Sequence");
    reveal_strlit("ByteLevel");
    reveal_strlit("FixedLength");
    reveal_strlit("Split");
    assert("Sequence"@.len() == 8 && "ByteLevel"@.len() == 9 && "FixedLength"@.len() == 11);
    assert("Split"@.len() == 5);
    let list = CUTTING@;
    assert(list.len() == 8);
    assert(list[0]@ == "BertPreTokenizer"@ && list[1]@ == "CharDelimiterSplit"@);
    assert(list[2]@ == "Metaspace"@ && list[3]@ == "Whitespace"@ && list[4]@ == "WhitespaceSplit"@);
    assert(list[5]@ == "Punctuation"@ && list[6]@ == "Digits"@ && list[7]@ == "UnicodeScripts"@);
}

/// A pattern is tame when it nowhere looks back: it holds no `\K`, no `\k`, no backslash before a figure
/// and no `?P=`.
pub proof fn law_tame_patterns(s: Seq<char>, i: int, c: char)
    ensures
        occurs_at(s, seq!['\\', 'K'], i) || occurs_at(s, seq!['\\', 'k'], i) || (is_digit(c)
            && occurs_at(s, seq!['\\', c], i)) || occurs_at(s, seq!['?', 'P', '='], i) ==> !is_tame(
            s,
        ),
{
    if is_tame(s) {
        if occurs_at(s, seq!['\\', 'K'], i) {
            assert(s.subrange(i, i + 2)[0] == '\\' && s.subrange(i, i + 2)[1] == 'K');
            assert(is_wild_at(s, i));
        }
        if occurs_at(s, seq!['\\', 'k'], i) {
            assert(s.subrange(i, i + 2)[0] == '\\' && s.subrange(i, i + 2)[1] == 'k');
            assert(is_wild_at(s, i));
        }
        if is_digit(c) && occurs_at(s, seq!['\\', c], i) {
            assert(s.subrange(i, i + 2)[0] == '\\' && s.subrange(i, i + 2)[1] == c);
            assert(is_wild_at(s, i));
        }
        if occurs_at(s, seq!['?', 'P', '='], i) {
            let t = s.subrange(i, i + 3);
            assert(t[0] == '?' && t[1] == 'P' && t[2] == '=');
            assert(is_wild_at(s, i));
        }
    }
}

/// A description is sound only when it names five parts, its normalizer and pre-tokenizer fit together, its
/// post-processor makes do with one text, and its padding is of no more than 1048576 tokens.
pub proof fn law_what_a_sound_description_has(d: Json)
    requires
        is_sound(d),
    ensures
        d matches Json::Array(parts) && parts.len() == 5 && {
            &&& normalized_by(parts[0], false, 128) matches Some(loose) && cut_by(parts[1], loose, 128)
                is Some
            &&& processed_by(parts[2], 1, 128) is Some
            &&& parts[3] != Json::Null ==> (fixed_padding(parts[3]) matches Some(fixed) && fixed
                <= 1_048_576)
            &&& parts[3] != Json::Null ==> (padding_step(parts[3]) matches Some(step) && step
                <= 1_048_576)
        },
{
}

/// An added token stands for something once it is normalized; where tokens claim the blanks on both sides
/// it is more than blanks, as it is written and as it is normalized.
pub proof fn law_added_tokens(text: Seq<char>, form: Seq<char>, blanks: bool)
    requires
        is_token(text, form, blanks),
    ensures
        form.len() > 0,
        blanks ==> exists|i: int| 0 <= i < text.len() && !is_white(#[trigger] text[i]),
        blanks ==> exists|i: int| 0 <= i < form.len() && !is_white(#[trigger] form[i]),
{
    if blanks {
        let a = law_trimming_takes_white_ends(text);
        let b = law_trimming_takes_white_ends(form);
        assert(trimmed(text)[0] == text[a.0]);
        assert(trimmed(form)[0] == form[b.0]);
    }
}

} // verus!
