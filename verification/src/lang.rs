//! Dependency-free script and language detection, used to pick a checkpoint.
//!
//! Routing only needs one decision: *is this English Latin text, or is it something the English
//! checkpoint cannot read?* The English checkpoint does not gently degrade off English, it
//! collapses while it stays confident. So **script** is the primary signal and it is detected
//! exactly; the Latin-script language guess is a stopword and diacritic heuristic and is
//! explicitly best effort.

use vstd::arithmetic::power2::pow2;
use vstd::prelude::*;
use vstd::string::*;

use crate::float::{
    at_most_one, bits_of, complement, distance, divide, encode, four_decimals, fraction_of, half_up,
    is_share, law_complement_is_nearest, law_four_decimals, law_quotient_is_nearest, law_two_hundredths,
    law_whole_is_one, lemma_bits_round_trip, lemma_quotient_at_most_one, lemma_share_scale, lemma_zero_is_share, less, normal, quotient,
    round4, rounded, subtract_from_one, times, Dyadic, Float, Fraction,
};
use crate::json::{Json, Value};
use crate::ordered::keys_of;
use crate::question::optional_text;
use crate::text::{
    chars_of, in_order, join, joined, law_joining, lemma_precedes_chain, precedes, same_text, string_of, texts,
};
use crate::unicode::{
    alphabetic, ascii_lower, ascii_lowercase, is_alphabetic, is_ascii_char, is_ascii_letter,
    is_ascii_text, lower_char, lowercase, lowered, to_lowercase,
};

verus! {

// ----------------------------------------------------------------------- scripts

/// The scripts that detection tells apart.
#[derive(Clone, Copy, Debug, PartialEq, Eq, Structural)]
pub enum Script {
    Latin,
    Greek,
    Cyrillic,
    Armenian,
    Hebrew,
    Arabic,
    Devanagari,
    Bengali,
    Gurmukhi,
    Gujarati,
    Oriya,
    Tamil,
    Telugu,
    Kannada,
    Malayalam,
    Sinhala,
    Thai,
    Lao,
    Tibetan,
    Myanmar,
    Georgian,
    Ethiopic,
    Khmer,
    Hangul,
    Kana,
    Han,
    /// Any script not named above.
    Other,
}

/// How a script is named.
pub open spec fn script_name(s: Script) -> Seq<char> {
    match s {
        Script::Latin => "latin"@,
        Script::Greek => "greek"@,
        Script::Cyrillic => "cyrillic"@,
        Script::Armenian => "armenian"@,
        Script::Hebrew => "hebrew"@,
        Script::Arabic => "arabic"@,
        Script::Devanagari => "devanagari"@,
        Script::Bengali => "bengali"@,
        Script::Gurmukhi => "gurmukhi"@,
        Script::Gujarati => "gujarati"@,
        Script::Oriya => "oriya"@,
        Script::Tamil => "tamil"@,
        Script::Telugu => "telugu"@,
        Script::Kannada => "kannada"@,
        Script::Malayalam => "malayalam"@,
        Script::Sinhala => "sinhala"@,
        Script::Thai => "thai"@,
        Script::Lao => "lao"@,
        Script::Tibetan => "tibetan"@,
        Script::Myanmar => "myanmar"@,
        Script::Georgian => "georgian"@,
        Script::Ethiopic => "ethiopic"@,
        Script::Khmer => "khmer"@,
        Script::Hangul => "hangul"@,
        Script::Kana => "kana"@,
        Script::Han => "han"@,
        Script::Other => "other"@,
    }
}

/// The script a code point belongs to. All but Latin are blocks the English (50k English BPE)
/// checkpoint cannot read.
pub open spec fn script_at(u: int) -> Option<Script> {
    if u < 0x0250 || 0x1e00 <= u <= 0x1eff {
        Some(Script::Latin)
    } else if 0x0370 <= u <= 0x03ff || 0x1f00 <= u <= 0x1fff {
        Some(Script::Greek)
    } else if 0x0400 <= u <= 0x052f || 0x2de0 <= u <= 0x2dff || 0xa640 <= u <= 0xa69f {
        Some(Script::Cyrillic)
    } else if 0x0530 <= u <= 0x058f {
        Some(Script::Armenian)
    } else if 0x0590 <= u <= 0x05ff {
        Some(Script::Hebrew)
    } else if 0x0600 <= u <= 0x06ff || 0x0750 <= u <= 0x077f || 0x08a0 <= u <= 0x08ff
        || 0xfb50 <= u <= 0xfdff || 0xfe70 <= u <= 0xfeff {
        Some(Script::Arabic)
    } else if 0x0900 <= u <= 0x097f || 0xa8e0 <= u <= 0xa8ff {
        Some(Script::Devanagari)
    } else if 0x0980 <= u <= 0x09ff {
        Some(Script::Bengali)
    } else if 0x0a00 <= u <= 0x0a7f {
        Some(Script::Gurmukhi)
    } else if 0x0a80 <= u <= 0x0aff {
        Some(Script::Gujarati)
    } else if 0x0b00 <= u <= 0x0b7f {
        Some(Script::Oriya)
    } else if 0x0b80 <= u <= 0x0bff {
        Some(Script::Tamil)
    } else if 0x0c00 <= u <= 0x0c7f {
        Some(Script::Telugu)
    } else if 0x0c80 <= u <= 0x0cff {
        Some(Script::Kannada)
    } else if 0x0d00 <= u <= 0x0d7f {
        Some(Script::Malayalam)
    } else if 0x0d80 <= u <= 0x0dff {
        Some(Script::Sinhala)
    } else if 0x0e00 <= u <= 0x0e7f {
        Some(Script::Thai)
    } else if 0x0e80 <= u <= 0x0eff {
        Some(Script::Lao)
    } else if 0x0f00 <= u <= 0x0fff {
        Some(Script::Tibetan)
    } else if 0x1000 <= u <= 0x109f {
        Some(Script::Myanmar)
    } else if 0x10a0 <= u <= 0x10ff {
        Some(Script::Georgian)
    } else if 0x1200 <= u <= 0x137f {
        Some(Script::Ethiopic)
    } else if 0x1780 <= u <= 0x17ff {
        Some(Script::Khmer)
    } else if 0x1100 <= u <= 0x11ff || 0x3130 <= u <= 0x318f || 0xac00 <= u <= 0xd7af {
        Some(Script::Hangul)
    } else if 0x3040 <= u <= 0x309f || 0x30a0 <= u <= 0x30ff || 0x31f0 <= u <= 0x31ff {
        Some(Script::Kana)
    } else if 0x3400 <= u <= 0x4dbf || 0x4e00 <= u <= 0x9fff || 0xf900 <= u <= 0xfaff {
        Some(Script::Han)
    } else {
        None
    }
}

/// Every script, in the order of their names.
pub const SCRIPTS_BY_NAME: [Script; 27] = [
    Script::Arabic,
    Script::Armenian,
    Script::Bengali,
    Script::Cyrillic,
    Script::Devanagari,
    Script::Ethiopic,
    Script::Georgian,
    Script::Greek,
    Script::Gujarati,
    Script::Gurmukhi,
    Script::Han,
    Script::Hangul,
    Script::Hebrew,
    Script::Kana,
    Script::Kannada,
    Script::Khmer,
    Script::Lao,
    Script::Latin,
    Script::Malayalam,
    Script::Myanmar,
    Script::Oriya,
    Script::Other,
    Script::Sinhala,
    Script::Tamil,
    Script::Telugu,
    Script::Thai,
    Script::Tibetan,
];

impl Script {
    /// How the script is named.
    pub fn name(self) -> (r: &'static str)
        ensures
            r@ == script_name(self),
    {
        match self {
            Script::Latin => "latin",
            Script::Greek => "greek",
            Script::Cyrillic => "cyrillic",
            Script::Armenian => "armenian",
            Script::Hebrew => "hebrew",
            Script::Arabic => "arabic",
            Script::Devanagari => "devanagari",
            Script::Bengali => "bengali",
            Script::Gurmukhi => "gurmukhi",
            Script::Gujarati => "gujarati",
            Script::Oriya => "oriya",
            Script::Tamil => "tamil",
            Script::Telugu => "telugu",
            Script::Kannada => "kannada",
            Script::Malayalam => "malayalam",
            Script::Sinhala => "sinhala",
            Script::Thai => "thai",
            Script::Lao => "lao",
            Script::Tibetan => "tibetan",
            Script::Myanmar => "myanmar",
            Script::Georgian => "georgian",
            Script::Ethiopic => "ethiopic",
            Script::Khmer => "khmer",
            Script::Hangul => "hangul",
            Script::Kana => "kana",
            Script::Han => "han",
            Script::Other => "other",
        }
    }
}

/// The script of a character; none for the scripts that are not told apart.
pub fn script_of(c: char) -> (r: Option<Script>)
    ensures
        r == script_at(c as int),
{
    let u: u32 = c as u32;
    if u < 0x0250 || (0x1e00 <= u && u <= 0x1eff) {
        Some(Script::Latin)
    } else if (0x0370 <= u && u <= 0x03ff) || (0x1f00 <= u && u <= 0x1fff) {
        Some(Script::Greek)
    } else if (0x0400 <= u && u <= 0x052f) || (0x2de0 <= u && u <= 0x2dff)
        || (0xa640 <= u && u <= 0xa69f) {
        Some(Script::Cyrillic)
    } else if (0x0530 <= u && u <= 0x058f) {
        Some(Script::Armenian)
    } else if (0x0590 <= u && u <= 0x05ff) {
        Some(Script::Hebrew)
    } else if (0x0600 <= u && u <= 0x06ff) || (0x0750 <= u && u <= 0x077f)
        || (0x08a0 <= u && u <= 0x08ff) || (0xfb50 <= u && u <= 0xfdff)
        || (0xfe70 <= u && u <= 0xfeff) {
        Some(Script::Arabic)
    } else if (0x0900 <= u && u <= 0x097f) || (0xa8e0 <= u && u <= 0xa8ff) {
        Some(Script::Devanagari)
    } else if (0x0980 <= u && u <= 0x09ff) {
        Some(Script::Bengali)
    } else if (0x0a00 <= u && u <= 0x0a7f) {
        Some(Script::Gurmukhi)
    } else if (0x0a80 <= u && u <= 0x0aff) {
        Some(Script::Gujarati)
    } else if (0x0b00 <= u && u <= 0x0b7f) {
        Some(Script::Oriya)
    } else if (0x0b80 <= u && u <= 0x0bff) {
        Some(Script::Tamil)
    } else if (0x0c00 <= u && u <= 0x0c7f) {
        Some(Script::Telugu)
    } else if (0x0c80 <= u && u <= 0x0cff) {
        Some(Script::Kannada)
    } else if (0x0d00 <= u && u <= 0x0d7f) {
        Some(Script::Malayalam)
    } else if (0x0d80 <= u && u <= 0x0dff) {
        Some(Script::Sinhala)
    } else if (0x0e00 <= u && u <= 0x0e7f) {
        Some(Script::Thai)
    } else if (0x0e80 <= u && u <= 0x0eff) {
        Some(Script::Lao)
    } else if (0x0f00 <= u && u <= 0x0fff) {
        Some(Script::Tibetan)
    } else if (0x1000 <= u && u <= 0x109f) {
        Some(Script::Myanmar)
    } else if (0x10a0 <= u && u <= 0x10ff) {
        Some(Script::Georgian)
    } else if (0x1200 <= u && u <= 0x137f) {
        Some(Script::Ethiopic)
    } else if (0x1780 <= u && u <= 0x17ff) {
        Some(Script::Khmer)
    } else if (0x1100 <= u && u <= 0x11ff) || (0x3130 <= u && u <= 0x318f)
        || (0xac00 <= u && u <= 0xd7af) {
        Some(Script::Hangul)
    } else if (0x3040 <= u && u <= 0x309f) || (0x30a0 <= u && u <= 0x30ff)
        || (0x31f0 <= u && u <= 0x31ff) {
        Some(Script::Kana)
    } else if (0x3400 <= u && u <= 0x4dbf) || (0x4e00 <= u && u <= 0x9fff)
        || (0xf900 <= u && u <= 0xfaff) {
        Some(Script::Han)
    } else {
        None
    }
}

/// The script that a letter counts towards.
pub open spec fn script_for(c: char) -> Script {
    match script_at(c as int) {
        Some(s) => s,
        None => Script::Other,
    }
}

/// Whether a character is a letter of this script.
pub open spec fn is_letter_of(c: char, s: Script) -> bool {
    alphabetic(c) && script_for(c) == s
}

/// How many letters of a script a text holds.
pub open spec fn letters_of(text: Seq<char>, s: Script) -> nat
    decreases text.len(),
{
    if text.len() == 0 {
        0
    } else if is_letter_of(text.last(), s) {
        letters_of(text.drop_last(), s) + 1
    } else {
        letters_of(text.drop_last(), s)
    }
}

/// How many letters a text holds.
pub open spec fn all_letters(text: Seq<char>) -> nat
    decreases text.len(),
{
    if text.len() == 0 {
        0
    } else if alphabetic(text.last()) {
        all_letters(text.drop_last()) + 1
    } else {
        all_letters(text.drop_last())
    }
}

/// The scripts of a text, each where its first letter stands.
pub open spec fn scripts_seen(text: Seq<char>) -> Seq<Script>
    decreases text.len(),
{
    if text.len() == 0 {
        Seq::empty()
    } else {
        let before = scripts_seen(text.drop_last());
        let s = script_for(text.last());
        if alphabetic(text.last()) && !before.contains(s) {
            before.push(s)
        } else {
            before
        }
    }
}

/// The scripts of a text with their letters, in the order they are first seen.
pub open spec fn counts_of(text: Seq<char>) -> Seq<(Script, nat)> {
    let seen = scripts_seen(text);
    Seq::new(seen.len(), |i: int| (seen[i], letters_of(text, seen[i])))
}

/// The script with the most letters; the first of those that have equally many.
pub open spec fn leading(counts: Seq<(Script, nat)>) -> Option<(Script, nat)>
    decreases counts.len(),
{
    if counts.len() == 0 {
        None
    } else {
        match leading(counts.drop_last()) {
            None => Some(counts.last()),
            Some(best) => if counts.last().1 > best.1 {
                Some(counts.last())
            } else {
                Some(best)
            },
        }
    }
}

/// The dominant script of a text; none when it holds no letters.
pub open spec fn dominant(text: Seq<char>) -> Option<Script> {
    match leading(counts_of(text)) {
        Some(best) => Some(best.0),
        None => None,
    }
}

/// How the dominant script of a text is named.
pub open spec fn script_label(script: Option<Script>) -> Seq<char> {
    match script {
        Some(s) => script_name(s),
        None => "unknown"@,
    }
}

/// Counts, mathematically.
pub open spec fn tally(v: Seq<(Script, usize)>) -> Seq<(Script, nat)> {
    Seq::new(v.len(), |i: int| (v[i].0, v[i].1 as nat))
}

proof fn lemma_letters_bound(text: Seq<char>, s: Script)
    ensures
        letters_of(text, s) <= all_letters(text) <= text.len(),
    decreases text.len(),
{
    if text.len() > 0 {
        lemma_letters_bound(text.drop_last(), s);
    }
}

/// A script is seen exactly when it has a letter, and no script is seen twice.
proof fn lemma_seen(text: Seq<char>)
    ensures
        forall|s: Script| #[trigger] scripts_seen(text).contains(s) <==> letters_of(text, s) > 0,
        scripts_seen(text).no_duplicates(),
    decreases text.len(),
{
    if text.len() > 0 {
        let t = text.drop_last();
        lemma_seen(t);
        let before = scripts_seen(t);
        let now = scripts_seen(text);
        assert forall|s: Script| #[trigger] now.contains(s) <==> letters_of(text, s) > 0 by {
            assert(before.contains(s) <==> letters_of(t, s) > 0);
            if now.len() == before.len() + 1 {
                assert(now == before.push(now.last()));
                if before.contains(s) {
                    let i = choose|i: int| 0 <= i < before.len() && before[i] == s;
                    assert(now[i] == s);
                }
                assert(now[now.len() - 1] == now.last());
            }
        }
    }
}

/// What the counts of a text say, one by one.
proof fn lemma_counts(v: Seq<(Script, usize)>, text: Seq<char>)
    requires
        tally(v) == counts_of(text),
    ensures
        v.len() == scripts_seen(text).len(),
        forall|i: int|
            0 <= i < v.len() ==> {
                &&& (#[trigger] v[i]).0 == scripts_seen(text)[i]
                &&& v[i].1 == letters_of(text, v[i].0)
            },
{
    assert(tally(v).len() == v.len());
    assert(counts_of(text).len() == scripts_seen(text).len());
    assert forall|i: int| 0 <= i < v.len() implies {
        &&& (#[trigger] v[i]).0 == scripts_seen(text)[i]
        &&& v[i].1 == letters_of(text, v[i].0)
    } by {
        assert(tally(v)[i] == counts_of(text)[i]);
    }
}

fn letter_script(c: char) -> (r: Script)
    ensures
        r == script_for(c),
{
    match script_of(c) {
        Some(s) => s,
        None => Script::Other,
    }
}

/// Count alphabetic characters per script, keeping first-seen order for tie-breaking.
pub fn script_counts(text: &str) -> (r: Vec<(Script, usize)>)
    ensures
        tally(r@) == counts_of(text@),
{
    let chars = chars_of(text);
    let n: usize = chars.len();
    let mut counts: Vec<(Script, usize)> = Vec::new();
    assert(tally(counts@) =~= counts_of(text@.take(0)));
    for i in 0..n
        invariant
            chars@ == text@,
            n == chars@.len(),
            tally(counts@) == counts_of(text@.take(i as int)),
    {
        let ghost done = text@.take(i as int);
        let ghost next = text@.take(i + 1);
        proof {
            assert(next.drop_last() =~= done);
            assert(next.last() == chars@[i as int]);
            lemma_seen(done);
            lemma_counts(counts@, done);
        }
        let c: char = chars[i];
        let found = if is_alphabetic(c) {
            Some(letter_script(c))
        } else {
            None
        };
        match found {
            None => {
                proof {
                    assert forall|s: Script| letters_of(next, s) == #[trigger] letters_of(
                        done,
                        s,
                    ) by {}
                    assert(tally(counts@) =~= counts_of(next));
                }
            },
            Some(s) => {
                let ghost before = counts@;
                let at = find_script(&counts, s);
                match at {
                    Some(k) => {
                        proof {
                            lemma_letters_bound(done, s);
                            assert(scripts_seen(done)[k as int] == s);
                        }
                        let many: usize = counts[k].1;
                        counts.set(k, (s, many + 1));
                        assert(tally(counts@) =~= counts_of(next)) by {
                            assert(scripts_seen(next) == scripts_seen(done));
                            assert forall|j: int| 0 <= j < before.len() implies #[trigger] tally(
                                counts@,
                            )[j] == counts_of(next)[j] by {
                                assert(before[j].0 == scripts_seen(done)[j]);
                                if j != k {
                                    assert(scripts_seen(done)[j] != s);
                                }
                            }
                        }
                    },
                    None => {
                        proof {
                            assert(!scripts_seen(done).contains(s)) by {
                                if scripts_seen(done).contains(s) {
                                    let j = choose|j: int|
                                        0 <= j < scripts_seen(done).len() && scripts_seen(done)[j]
                                            == s;
                                    assert(before[j].0 == s);
                                }
                            }
                            assert(letters_of(done, s) == 0);
                        }
                        counts.push((s, 1));
                        assert(tally(counts@) =~= counts_of(next)) by {
                            assert(scripts_seen(next) == scripts_seen(done).push(s));
                            assert forall|j: int| 0 <= j < before.len() implies #[trigger] tally(
                                counts@,
                            )[j] == counts_of(next)[j] by {
                                assert(before[j].0 == scripts_seen(done)[j]);
                                assert(scripts_seen(done).contains(scripts_seen(done)[j]));
                            }
                        }
                    },
                }
            },
        }
    }
    assert(text@.take(n as int) =~= text@);
    counts
}

/// Where a script stands among the counts.
fn find_script(counts: &Vec<(Script, usize)>, s: Script) -> (r: Option<usize>)
    ensures
        match r {
            Some(k) => k < counts@.len() && counts@[k as int].0 == s,
            None => forall|i: int| 0 <= i < counts@.len() ==> (#[trigger] counts@[i]).0 != s,
        },
{
    for i in 0..counts.len()
        invariant
            forall|j: int| 0 <= j < i ==> (#[trigger] counts@[j]).0 != s,
    {
        if counts[i].0 == s {
            return Some(i);
        }
    }
    None
}

/// The dominant script of `text`; none when it holds no letters.
pub fn dominant_script(text: &str) -> (r: Option<Script>)
    ensures
        r == dominant(text@),
{
    let counts = script_counts(text);
    let ghost all = counts_of(text@);
    let mut best: Option<(Script, usize)> = None;
    // The first maximum in insertion order stays.
    for i in 0..counts.len()
        invariant
            tally(counts@) == all,
            match best {
                Some((s, n)) => leading(all.take(i as int)) == Some((s, n as nat)),
                None => leading(all.take(i as int)) is None,
            },
    {
        assert(all.take(i + 1).drop_last() =~= all.take(i as int));
        assert(all[i as int] == (counts@[i as int].0, counts@[i as int].1 as nat));
        let (s, n) = counts[i];
        best = match best {
            None => Some((s, n)),
            Some((t, m)) => if n > m {
                Some((s, n))
            } else {
                Some((t, m))
            },
        };
    }
    assert(all.take(all.len() as int) =~= all);
    match best {
        Some((s, _)) => Some(s),
        None => None,
    }
}

/// Dominant script of `text`, or `"unknown"` when it holds no letters.
pub fn detect_script(text: &str) -> (r: String)
    ensures
        r@ == script_label(dominant(text@)),
        (r@ == "unknown"@) <==> (forall|i: int|
            0 <= i < text@.len() ==> !alphabetic(#[trigger] text@[i])),
{
    proof {
        law_unknown_means_no_letters(text@);
    }
    match dominant_script(text) {
        Some(s) => s.name().to_owned(),
        None => "unknown".to_owned(),
    }
}

// ----------------------------------------------------------------------- script profiles

/// `n` of `d`, as a single-precision number.
pub open spec fn share_of(n: nat, d: nat) -> Float {
    Float { bits: bits_of(quotient(n, d)) as u32 }
}

/// The shares of the first `k` scripts, those without letters left out.
pub open spec fn profile_upto(text: Seq<char>, k: int) -> Seq<(Seq<char>, Float)>
    decreases k,
{
    if k <= 0 {
        Seq::empty()
    } else {
        let s = SCRIPTS_BY_NAME@[k - 1];
        let before = profile_upto(text, k - 1);
        if letters_of(text, s) > 0 {
            before.push((script_name(s), share_of(letters_of(text, s), all_letters(text))))
        } else {
            before
        }
    }
}

/// The share of the letters that belongs to each script found, by the names of the scripts.
pub open spec fn profile_of(text: Seq<char>) -> Seq<(Seq<char>, Float)> {
    profile_upto(text, 27)
}

/// Named shares, mathematically.
pub open spec fn shares(v: Seq<(String, Float)>) -> Seq<(Seq<char>, Float)> {
    Seq::new(v.len(), |i: int| (v[i].0@, v[i].1))
}

/// The letters of a text.
fn count_letters(text: &str) -> (r: usize)
    ensures
        r == all_letters(text@),
{
    let chars = chars_of(text);
    let n: usize = chars.len();
    let mut total: usize = 0;
    for i in 0..n
        invariant
            chars@ == text@,
            n == chars@.len(),
            total == all_letters(text@.take(i as int)),
            total <= i,
    {
        assert(text@.take(i + 1).drop_last() =~= text@.take(i as int));
        let c: char = chars[i];
        if is_alphabetic(c) {
            total = total + 1;
        }
    }
    assert(text@.take(n as int) =~= text@);
    total
}

/// The letters of one script.
fn count_of(counts: &Vec<(Script, usize)>, s: Script, Ghost(text): Ghost<Seq<char>>) -> (r: usize)
    requires
        tally(counts@) == counts_of(text),
    ensures
        r == letters_of(text, s),
{
    proof {
        lemma_seen(text);
        lemma_counts(counts@, text);
    }
    match find_script(counts, s) {
        Some(k) => counts[k].1,
        None => {
            assert(!scripts_seen(text).contains(s)) by {
                if scripts_seen(text).contains(s) {
                    let j = choose|j: int|
                        0 <= j < scripts_seen(text).len() && scripts_seen(text)[j] == s;
                    assert(counts@[j].0 == s);
                }
            }
            0
        },
    }
}

/// Fraction of alphabetic characters belonging to each detected script, by the script's name.
pub fn script_profile(text: &str) -> (r: Vec<(String, Float)>)
    ensures
        shares(r@) == profile_of(text@),
{
    let counts = script_counts(text);
    let total: usize = count_letters(text);
    let mut out: Vec<(String, Float)> = Vec::new();
    assert(shares(out@) =~= profile_upto(text@, 0));
    for k in 0..27usize
        invariant
            tally(counts@) == counts_of(text@),
            total == all_letters(text@),
            shares(out@) == profile_upto(text@, k as int),
    {
        let s = SCRIPTS_BY_NAME[k];
        let n: usize = count_of(&counts, s, Ghost(text@));
        let ghost before = out@;
        proof {
            lemma_letters_bound(text@, s);
        }
        if n > 0 {
            let share = encode(divide(n, total));
            out.push((s.name().to_owned(), share));
            assert(shares(out@) =~= shares(before).push((script_name(s), share)));
        }
    }
    out
}

// ----------------------------------------------------------------------- the text of a state

/// How much text detection looks at, in characters.
pub const MAX_DETECTION_CHARS: usize = 4000;

/// How deep detection walks into a nested state.
pub const MAX_DEPTH: usize = 6;

/// The string leaves of a state, in order. Keys are ignored: they are usually English.
pub open spec fn leaves_of(state: Json, depth: nat) -> Seq<Seq<char>>
    decreases state,
{
    if depth > MAX_DEPTH {
        Seq::empty()
    } else {
        match state {
            Json::Text(s) => seq![s],
            Json::Array(items) => leaves_of_items(items, depth + 1),
            Json::Object(fields) => leaves_of_fields(fields, depth + 1),
            _ => Seq::empty(),
        }
    }
}

/// The string leaves of the items of an array.
pub open spec fn leaves_of_items(items: Seq<Json>, depth: nat) -> Seq<Seq<char>>
    decreases items,
{
    if items.len() == 0 {
        Seq::empty()
    } else {
        leaves_of_items(items.subrange(0, items.len() - 1), depth) + leaves_of(
            items[items.len() - 1],
            depth,
        )
    }
}

/// The string leaves of the values of an object.
pub open spec fn leaves_of_fields(fields: Seq<(Seq<char>, Json)>, depth: nat) -> Seq<Seq<char>>
    decreases fields,
{
    if fields.len() == 0 {
        Seq::empty()
    } else {
        leaves_of_fields(fields.subrange(0, fields.len() - 1), depth) + leaves_of(
            fields[fields.len() - 1].1,
            depth,
        )
    }
}

/// The text detection reads: the leaves with a blank between each two, cut to
/// [`MAX_DETECTION_CHARS`].
pub open spec fn state_text_of(state: Json) -> Seq<char> {
    let text = joined(leaves_of(state, 0), " "@);
    if text.len() <= MAX_DETECTION_CHARS {
        text
    } else {
        text.take(MAX_DETECTION_CHARS as int)
    }
}

fn text_leaves(state: &Value, depth: usize, out: &mut Vec<String>)
    requires
        depth <= MAX_DEPTH + 1,
    ensures
        texts(final(out)@) == texts(old(out)@) + leaves_of(state@, depth as nat),
    decreases state,
{
    let ghost start = texts(out@);
    if depth > MAX_DEPTH {
        assert(start + Seq::empty() =~= start);
        return;
    }
    match state {
        Value::String(s) => {
            out.push(s.clone());
            assert(texts(out@) =~= start + seq![s@]);
        },
        Value::Array(items) => {
            let ghost all = state@->Array_0;
            assert(all.take(0) =~= Seq::empty());
            assert(start + Seq::empty() =~= start);
            for i in 0..items.len()
                invariant
                    *state matches Value::Array(x) && x == items,
                    all == state@->Array_0,
                    depth <= MAX_DEPTH,
                    texts(out@) == start + leaves_of_items(all.take(i as int), depth as nat + 1),
            {
                let ghost next = all.take(i + 1);
                assert(next.subrange(0, i as int) =~= all.take(i as int));
                assert(next[i as int] == items@[i as int]@);
                text_leaves(&items[i], depth + 1, out);
                assert(texts(out@) =~= start + leaves_of_items(next, depth as nat + 1));
            }
            assert(all.take(all.len() as int) =~= all);
        },
        Value::Object(fields) => {
            let ghost all = state@->Object_0;
            assert(all.take(0) =~= Seq::empty());
            assert(start + Seq::empty() =~= start);
            for i in 0..fields.len()
                invariant
                    *state matches Value::Object(x) && x == fields,
                    all == state@->Object_0,
                    depth <= MAX_DEPTH,
                    texts(out@) == start + leaves_of_fields(all.take(i as int), depth as nat + 1),
            {
                let ghost next = all.take(i + 1);
                assert(next.subrange(0, i as int) =~= all.take(i as int));
                assert(next[i as int] == (fields@[i as int].0@, fields@[i as int].1@));
                text_leaves(&fields[i].1, depth + 1, out);
                assert(texts(out@) =~= start + leaves_of_fields(next, depth as nat + 1));
            }
            assert(all.take(all.len() as int) =~= all);
        },
        _ => {
            assert(start + Seq::empty() =~= start);
        },
    }
}

/// Flatten a state into the text detection reads.
pub fn state_text(state: &Value) -> (r: String)
    ensures
        r@ == state_text_of(state@),
{
    let mut leaves: Vec<String> = Vec::new();
    text_leaves(state, 0, &mut leaves);
    assert(texts(leaves@) =~= leaves_of(state@, 0));
    let text = join(&leaves, " ");
    let chars = chars_of(text.as_str());
    let mut kept: Vec<char> = Vec::new();
    let n: usize = if chars.len() <= MAX_DETECTION_CHARS {
        chars.len()
    } else {
        MAX_DETECTION_CHARS
    };
    for i in 0..n
        invariant
            n <= chars@.len(),
            kept@ == chars@.take(i as int),
    {
        kept.push(chars[i]);
        assert(chars@.take(i + 1) =~= chars@.take(i as int).push(chars@[i as int]));
    }
    assert(chars@.take(chars@.len() as int) =~= chars@);
    string_of(kept.as_slice())
}

// ----------------------------------------------------------------------- words

/// The words of a text, after the letters `cur` of a word that has begun: runs of letters, put
/// into lower case letter by letter.
pub open spec fn words_after(text: Seq<char>, cur: Seq<char>) -> Seq<Seq<char>>
    decreases text.len(),
{
    if text.len() == 0 {
        if cur.len() == 0 {
            Seq::empty()
        } else {
            seq![cur]
        }
    } else if alphabetic(text[0]) {
        words_after(text.drop_first(), cur + lowered(text[0]))
    } else if cur.len() == 0 {
        words_after(text.drop_first(), cur)
    } else {
        seq![cur] + words_after(text.drop_first(), Seq::empty())
    }
}

/// The words of a text.
pub open spec fn words_of(text: Seq<char>) -> Seq<Seq<char>> {
    words_after(text, Seq::empty())
}

/// The words of a text: runs of letters, in lower case.
pub fn words(text: &str) -> (r: Vec<String>)
    ensures
        texts(r@) == words_of(text@),
{
    let chars = chars_of(text);
    let mut out: Vec<String> = Vec::new();
    let mut cur: Vec<char> = Vec::new();
    let n: usize = chars.len();
    assert(text@.skip(0) =~= text@);
    assert(cur@ =~= Seq::empty());
    assert(texts(out@) + words_of(text@) =~= words_of(text@));
    for i in 0..n
        invariant
            n == chars@.len(),
            chars@ == text@,
            texts(out@) + words_after(text@.skip(i as int), cur@) == words_of(text@),
    {
        let ghost rest = text@.skip(i as int);
        assert(rest.drop_first() =~= text@.skip(i + 1));
        assert(rest[0] == chars@[i as int]);
        let c: char = chars[i];
        if is_alphabetic(c) {
            let mut lower = lower_char(c);
            cur.append(&mut lower);
        } else if cur.len() > 0 {
            let word = string_of(cur.as_slice());
            let ghost before = texts(out@);
            let ghost tail = words_after(rest.drop_first(), Seq::empty());
            out.push(word);
            cur = Vec::new();
            assert(texts(out@) =~= before.push(word@));
            assert(before.push(word@) + tail =~= before + (seq![word@] + tail));
            assert(cur@ =~= Seq::empty());
        }
    }
    assert(text@.skip(n as int) =~= Seq::empty());
    if cur.len() > 0 {
        let ghost before = texts(out@);
        let word = string_of(cur.as_slice());
        out.push(word);
        assert(texts(out@) =~= before + seq![word@]);
    } else {
        assert(texts(out@) =~= texts(out@) + Seq::<Seq<char>>::empty());
    }
    out
}

/// The languages that have a list of function words.
#[derive(Clone, Copy, Debug, PartialEq, Eq, Structural)]
pub enum Language {
    English,
    French,
    German,
    Spanish,
    Portuguese,
    Italian,
    Dutch,
    Romanian,
}

/// Function words of English.
pub const ENGLISH_WORDS: [&'static str; 34] = [
    "the", "and", "is", "are", "was", "were", "to", "of", "in", "for", "with", "that", "this", "it",
    "you", "have", "has", "not", "but", "on", "at", "be", "as", "from", "will", "can", "would",
    "there", "their", "what", "which", "please", "we", "i",
];

/// Function words of French.
pub const FRENCH_WORDS: [&'static str; 23] = [
    "le", "la", "les", "des", "une", "est", "pour", "dans", "que", "qui", "avec", "sur", "pas",
    "plus", "nous", "vous", "être", "cette", "mais", "sont", "ont", "aux", "ce",
];

/// Function words of German.
pub const GERMAN_WORDS: [&'static str; 23] = [
    "der", "die", "das", "und", "ist", "ein", "eine", "den", "dem", "nicht", "mit", "für", "auf",
    "von", "zu", "sich", "auch", "werden", "wurde", "haben", "sind", "oder", "aber",
];

/// Function words of Spanish.
pub const SPANISH_WORDS: [&'static str; 22] = [
    "el", "los", "las", "que", "por", "con", "para", "una", "es", "se", "del", "como", "pero",
    "son", "está", "este", "esta", "todo", "más", "muy", "hay", "sus",
];

/// Function words of Portuguese.
pub const PORTUGUESE_WORDS: [&'static str; 23] = [
    "os", "as", "que", "em", "um", "uma", "para", "com", "não", "é", "se", "do", "da", "dos", "das",
    "mas", "são", "está", "este", "esta", "muito", "pelo", "pela",
];

/// Function words of Italian.
pub const ITALIAN_WORDS: [&'static str; 20] = [
    "il", "lo", "gli", "che", "di", "per", "con", "non", "è", "si", "del", "della", "sono",
    "questo", "questa", "anche", "come", "più", "nella", "alla",
];

/// Function words of Dutch.
pub const DUTCH_WORDS: [&'static str; 19] = [
    "het", "een", "van", "is", "op", "te", "dat", "niet", "met", "voor", "zijn", "aan", "door",
    "maar", "ook", "worden", "deze", "naar", "wordt",
];

/// Romanian words its Romance neighbours do not share: `la`, `o`, `un`, `de`, `pe`, `ca` are
/// deliberately left out so that Romanian cannot steal a French or Spanish state.
pub const ROMANIAN_WORDS: [&'static str; 27] = [
    "și", "să", "este", "sunt", "care", "pentru", "din", "dar", "după", "până", "fără", "ale",
    "lui", "în", "fost", "acum", "vreau", "trebuie", "foarte", "acest", "această", "acesta",
    "aceasta", "mi", "ți", "vă", "nu",
];

/// Letters ordinary English does not use: Western European, Romanian, Polish, Czech and Slovak,
/// Hungarian, Turkish, Baltic, Serbo-Croatian and Vietnamese ones. Text is put into lower case
/// before it is matched.
///
/// This is the signal that catches a Latin-script language no stopword list here covers — the
/// difference between routing it to the multilingual checkpoint and silently handing it to the
/// one that cannot read it.
pub const NON_EN_DIACRITICS: &'static str = "àâäãáåçéèêëíìîïñóòôöõøúùûüýÿßæœăâîșțşţąćęłńśźżčďěňřšťůžőűğıāēģīķļņūžđ";

/// A diacritic rate above this, 0.02, is taken as evidence the text is not English, even when no
/// stopword list matches it. These are the bits of that number.
pub const NON_EN_DIACRITIC_RATE: u32 = 0x3ca3_d70a;

// ----------------------------------------------------------------------- Latin-script languages

/// The code of a language.
pub open spec fn code_of(l: Language) -> Seq<char> {
    match l {
        Language::English => "en"@,
        Language::French => "fr"@,
        Language::German => "de"@,
        Language::Spanish => "es"@,
        Language::Portuguese => "pt"@,
        Language::Italian => "it"@,
        Language::Dutch => "nl"@,
        Language::Romanian => "ro"@,
    }
}

/// The function words of a language. Latin-script languages overlap heavily, so a margin is
/// required before calling something non-English.
pub open spec fn stopwords_of(l: Language) -> Seq<&'static str> {
    match l {
        Language::English => ENGLISH_WORDS@,
        Language::French => FRENCH_WORDS@,
        Language::German => GERMAN_WORDS@,
        Language::Spanish => SPANISH_WORDS@,
        Language::Portuguese => PORTUGUESE_WORDS@,
        Language::Italian => ITALIAN_WORDS@,
        Language::Dutch => DUTCH_WORDS@,
        Language::Romanian => ROMANIAN_WORDS@,
    }
}

/// Whether a word stands in a list.
pub open spec fn listed(list: Seq<&'static str>, word: Seq<char>) -> bool {
    exists|i: int| 0 <= i < list.len() && (#[trigger] list[i])@ == word
}

/// How many words of a text are function words of a language.
pub open spec fn hits_of(words: Seq<Seq<char>>, l: Language) -> nat
    decreases words.len(),
{
    if words.len() == 0 {
        0
    } else if listed(stopwords_of(l), words.last()) {
        hits_of(words.drop_last(), l) + 1
    } else {
        hits_of(words.drop_last(), l)
    }
}

/// The better of a language found so far and the next one; the earlier one of two that are equal.
pub open spec fn better(
    found: (Language, nat),
    words: Seq<Seq<char>>,
    next: Language,
) -> (Language, nat) {
    if hits_of(words, next) > found.1 {
        (next, hits_of(words, next))
    } else {
        found
    }
}

/// The language other than English with the most function words in a text. The order decides
/// between languages with equally many.
pub open spec fn best_foreign(words: Seq<Seq<char>>) -> (Language, nat) {
    let b = (Language::French, hits_of(words, Language::French));
    let b = better(b, words, Language::German);
    let b = better(b, words, Language::Spanish);
    let b = better(b, words, Language::Portuguese);
    let b = better(b, words, Language::Italian);
    let b = better(b, words, Language::Dutch);
    better(b, words, Language::Romanian)
}

/// The larger of two numbers.
pub open spec fn larger(a: nat, b: nat) -> nat {
    if a < b {
        b
    } else {
        a
    }
}

/// The language of a Latin-script text, if it can be named; `foreign_letters` says whether its
/// letters speak against English.
///
/// A language other than English needs a clear margin over English function words. With letters
/// against English, no margin but still two hits: one shared function word ("para" in Turkish
/// text) would name Spanish on the strength of the diacritics alone, which is a guess dressed as
/// a detection.
pub open spec fn language_of(words: Seq<Seq<char>>, foreign_letters: bool) -> Option<Language> {
    let en = hits_of(words, Language::English);
    let (foreign, hits) = best_foreign(words);
    if words.len() < 4 {
        None
    } else if hits >= larger(2, en + 2) {
        Some(foreign)
    } else if foreign_letters && hits >= larger(2, en) {
        Some(foreign)
    } else if en > 0 && !foreign_letters {
        Some(Language::English)
    } else {
        None
    }
}

/// How many characters of a text are letters English does not use.
pub open spec fn diacritics_of(text: Seq<char>) -> nat
    decreases text.len(),
{
    if text.len() == 0 {
        0
    } else if NON_EN_DIACRITICS@.contains(text.last()) {
        diacritics_of(text.drop_last()) + 1
    } else {
        diacritics_of(text.drop_last())
    }
}

/// The share of a lower-case text that is letters English does not use.
pub open spec fn diacritic_share(text: Seq<char>) -> Fraction {
    quotient(diacritics_of(text), larger(1, text.len()))
}

/// Whether a share of such letters speaks against English.
pub open spec fn looks_foreign(share: Fraction) -> bool {
    less(Float { bits: NON_EN_DIACRITIC_RATE }, Float { bits: bits_of(share) as u32 })
}

impl Language {
    /// The code of the language.
    pub fn code(self) -> (r: &'static str)
        ensures
            r@ == code_of(self),
    {
        match self {
            Language::English => "en",
            Language::French => "fr",
            Language::German => "de",
            Language::Spanish => "es",
            Language::Portuguese => "pt",
            Language::Italian => "it",
            Language::Dutch => "nl",
            Language::Romanian => "ro",
        }
    }
}

pub(crate) fn among(list: &[&'static str], word: &str) -> (r: bool)
    ensures
        r == listed(list@, word@),
{
    for i in 0..list.len()
        invariant
            forall|j: int| 0 <= j < i ==> (#[trigger] list@[j])@ != word@,
    {
        if same_text(list[i], word) {
            return true;
        }
    }
    false
}

fn is_stopword(l: Language, word: &str) -> (r: bool)
    ensures
        r == listed(stopwords_of(l), word@),
{
    match l {
        Language::English => among(ENGLISH_WORDS.as_slice(), word),
        Language::French => among(FRENCH_WORDS.as_slice(), word),
        Language::German => among(GERMAN_WORDS.as_slice(), word),
        Language::Spanish => among(SPANISH_WORDS.as_slice(), word),
        Language::Portuguese => among(PORTUGUESE_WORDS.as_slice(), word),
        Language::Italian => among(ITALIAN_WORDS.as_slice(), word),
        Language::Dutch => among(DUTCH_WORDS.as_slice(), word),
        Language::Romanian => among(ROMANIAN_WORDS.as_slice(), word),
    }
}

/// How many words are function words of a language.
pub fn hits(words: &Vec<String>, l: Language) -> (r: usize)
    ensures
        r == hits_of(texts(words@), l),
{
    let ghost all = texts(words@);
    let mut n: usize = 0;
    for i in 0..words.len()
        invariant
            all == texts(words@),
            n == hits_of(all.take(i as int), l),
            n <= i,
    {
        assert(all.take(i + 1).drop_last() =~= all.take(i as int));
        if is_stopword(l, words[i].as_str()) {
            n = n + 1;
        }
    }
    assert(all.take(all.len() as int) =~= all);
    n
}

fn pick(found: (Language, usize), words: &Vec<String>, next: Language) -> (r: (Language, usize))
    ensures
        (r.0, r.1 as nat) == better((found.0, found.1 as nat), texts(words@), next),
{
    let n: usize = hits(words, next);
    if n > found.1 {
        (next, n)
    } else {
        found
    }
}

/// The language of a Latin-script text from its words, if it can be named.
pub fn name_language(words: &Vec<String>, foreign_letters: bool) -> (r: Option<Language>)
    ensures
        r == language_of(texts(words@), foreign_letters),
{
    if words.len() < 4 {
        return None;
    }
    let en: usize = hits(words, Language::English);
    let b = (Language::French, hits(words, Language::French));
    let b = pick(b, words, Language::German);
    let b = pick(b, words, Language::Spanish);
    let b = pick(b, words, Language::Portuguese);
    let b = pick(b, words, Language::Italian);
    let b = pick(b, words, Language::Dutch);
    let (foreign, n) = pick(b, words, Language::Romanian);
    if n >= 2 && n - 2 >= en {
        Some(foreign)
    } else if foreign_letters && n >= 2 && n >= en {
        Some(foreign)
    } else if en > 0 && !foreign_letters {
        Some(Language::English)
    } else {
        None
    }
}

fn count_diacritics(chars: &Vec<char>) -> (r: usize)
    ensures
        r == diacritics_of(chars@),
        r <= chars@.len(),
{
    let table = chars_of(NON_EN_DIACRITICS);
    let mut n: usize = 0;
    for i in 0..chars.len()
        invariant
            table@ == NON_EN_DIACRITICS@,
            n == diacritics_of(chars@.take(i as int)),
            n <= i,
    {
        assert(chars@.take(i + 1).drop_last() =~= chars@.take(i as int));
        let c: char = chars[i];
        if contains_char(&table, c) {
            n = n + 1;
        }
    }
    assert(chars@.take(chars@.len() as int) =~= chars@);
    n
}

fn contains_char(chars: &Vec<char>, c: char) -> (r: bool)
    ensures
        r == chars@.contains(c),
{
    for i in 0..chars.len()
        invariant
            forall|j: int| 0 <= j < i ==> chars@[j] != c,
    {
        if chars[i] == c {
            return true;
        }
    }
    false
}

// ----------------------------------------------------------------------- detection

/// What the words and letters of a Latin-script text say.
pub struct LatinProfile {
    pub language: Option<Language>,
    pub diacritic_rate: Dyadic,
    pub looks_non_english: bool,
}

/// What a text's words and its lower-case characters say.
pub fn profile_latin(words: &Vec<String>, lower: &str) -> (r: LatinProfile)
    ensures
        r.diacritic_rate@ == diacritic_share(lower@),
        r.looks_non_english == looks_foreign(diacritic_share(lower@)),
        r.language == language_of(texts(words@), r.looks_non_english),
        normal(r.diacritic_rate@),
        at_most_one(r.diacritic_rate@),
        r.diacritic_rate.s <= 90,
{
    let chars = chars_of(lower);
    let n: usize = count_diacritics(&chars);
    let len: usize = if chars.len() < 1 {
        1
    } else {
        chars.len()
    };
    proof {
        lemma_quotient_at_most_one(n as nat, len as nat);
    }
    let diacritic_rate = divide(n, len);
    let looks_non_english = (Float { bits: NON_EN_DIACRITIC_RATE }).less_than(
        encode(diacritic_rate),
    );
    let language = name_language(words, looks_non_english);
    LatinProfile { language, diacritic_rate, looks_non_english }
}

/// What detection concluded about a state.
#[derive(Clone, Debug)]
pub struct Detection {
    /// Dominant script: `"latin"`, `"han"`, `"devanagari"`, … or `"unknown"` when there are no
    /// letters.
    pub script: String,
    /// Fraction of alphabetic characters belonging to each script found, by the script's name.
    pub script_profile: Vec<(String, Float)>,
    /// Best-effort language code for Latin text; `None` when undecided.
    pub language: Option<String>,
    /// Whether the English checkpoint can be expected to read this state.
    pub is_english: bool,
    /// True when no language could be named — which is *not* the same as English.
    pub language_undecided: bool,
    /// Share of characters that are non-English letters.
    pub diacritic_rate: Float,
    /// Share of alphabetic characters outside the Latin script.
    pub non_latin_fraction: Float,
}

/// The mathematical content of a [`Detection`].
pub struct Detected {
    pub script: Seq<char>,
    pub script_profile: Seq<(Seq<char>, Float)>,
    pub language: Option<Seq<char>>,
    pub is_english: bool,
    pub language_undecided: bool,
    pub diacritic_rate: Float,
    pub non_latin_fraction: Float,
}

impl View for Detection {
    type V = Detected;

    open spec fn view(&self) -> Detected {
        Detected {
            script: self.script@,
            script_profile: shares(self.script_profile@),
            language: optional_text(self.language),
            is_english: self.is_english,
            language_undecided: self.language_undecided,
            diacritic_rate: self.diacritic_rate,
            non_latin_fraction: self.non_latin_fraction,
        }
    }
}

/// A fraction rounded to four decimals, as a single-precision number.
pub open spec fn published(f: Fraction) -> Float {
    Float { bits: bits_of(four_decimals(f)) as u32 }
}

/// The share of a text's letters outside the Latin script.
pub open spec fn non_latin_share(text: Seq<char>) -> Float {
    published(complement(quotient(letters_of(text, Script::Latin), all_letters(text))))
}

/// The number zero.
pub open spec fn zero() -> Float {
    Float { bits: 0 }
}

/// The language of a Latin-script text, if it can be named.
pub open spec fn latin_language(text: Seq<char>) -> Option<Language> {
    language_of(words_of(text), looks_foreign(diacritic_share(lowercase(text))))
}

/// What detection concludes about a text.
///
/// Undecided is not English: when nothing identifies the language of Latin text, letters that
/// English does not use are enough to prefer the multilingual checkpoint. Text with no such
/// letters, short English among it, still goes to the English one.
pub open spec fn detected(text: Seq<char>) -> Detected {
    let script = dominant(text);
    match script {
        None => Detected {
            script: script_label(script),
            script_profile: profile_of(text),
            language: None,
            is_english: true,
            language_undecided: true,
            diacritic_rate: zero(),
            non_latin_fraction: zero(),
        },
        Some(Script::Latin) => {
            let language = latin_language(text);
            Detected {
                script: script_label(script),
                script_profile: profile_of(text),
                language: match language {
                    Some(l) => Some(code_of(l)),
                    None => None,
                },
                is_english: match language {
                    Some(l) => l == Language::English,
                    None => !looks_foreign(diacritic_share(lowercase(text))),
                },
                language_undecided: language is None,
                diacritic_rate: published(diacritic_share(lowercase(text))),
                non_latin_fraction: non_latin_share(text),
            }
        },
        Some(_) => Detected {
            script: script_label(script),
            script_profile: profile_of(text),
            language: None,
            is_english: false,
            language_undecided: true,
            diacritic_rate: zero(),
            non_latin_fraction: non_latin_share(text),
        },
    }
}

/// A text with a dominant script holds a letter.
proof fn lemma_dominant(text: Seq<char>)
    ensures
        dominant(text) is Some ==> all_letters(text) > 0,
{
    if dominant(text) is Some {
        let seen = scripts_seen(text);
        assert(counts_of(text).len() == seen.len());
        lemma_seen(text);
        assert(seen.contains(seen[0]));
        lemma_letters_bound(text, seen[0]);
    }
}

fn non_latin(text: &str) -> (r: Float)
    requires
        all_letters(text@) > 0,
    ensures
        r == non_latin_share(text@),
        is_share(r),
{
    let counts = script_counts(text);
    let total: usize = count_letters(text);
    let latin: usize = count_of(&counts, Script::Latin, Ghost(text@));
    proof {
        lemma_letters_bound(text@, Script::Latin);
        lemma_quotient_at_most_one(latin as nat, total as nat);
    }
    encode(round4(subtract_from_one(divide(latin, total))))
}

/// Full detection result for a text.
pub fn analyse_text(text: &str) -> (r: Detection)
    ensures
        r@ == detected(text@),
        is_share(r.diacritic_rate),
        is_share(r.non_latin_fraction),
{
    let script_profile = script_profile(text);
    let dominant = dominant_script(text);
    proof {
        lemma_dominant(text@);
        lemma_zero_is_share();
    }
    match dominant {
        None => Detection {
            script: "unknown".to_owned(),
            script_profile,
            language: None,
            is_english: true,
            language_undecided: true,
            diacritic_rate: Float { bits: 0 },
            non_latin_fraction: Float { bits: 0 },
        },
        Some(Script::Latin) => {
            let lower = to_lowercase(text);
            let ws = words(text);
            let lat = profile_latin(&ws, lower.as_str());
            let language = match lat.language {
                Some(l) => Some(l.code().to_owned()),
                None => None,
            };
            let is_english = match lat.language {
                Some(l) => l == Language::English,
                None => !lat.looks_non_english,
            };
            Detection {
                script: "latin".to_owned(),
                script_profile,
                language,
                is_english,
                language_undecided: lat.language.is_none(),
                diacritic_rate: encode(round4(lat.diacritic_rate)),
                non_latin_fraction: non_latin(text),
            }
        },
        Some(s) => Detection {
            script: s.name().to_owned(),
            script_profile,
            language: None,
            is_english: false,
            language_undecided: true,
            diacritic_rate: Float { bits: 0 },
            non_latin_fraction: non_latin(text),
        },
    }
}

/// Full detection result for a state.
pub fn analyse(state: &Value) -> (r: Detection)
    ensures
        r@ == detected(state_text_of(state@)),
        is_share(r.diacritic_rate),
        is_share(r.non_latin_fraction),
{
    let text = state_text(state);
    analyse_text(text.as_str())
}

/// True when the English checkpoint can be expected to read this state.
pub fn is_english(state: &Value) -> (r: bool)
    ensures
        r == detected(state_text_of(state@)).is_english,
{
    analyse(state).is_english
}

// ----------------------------------------------------------------------- laws

/// The leading count is among the counts, and none is larger.
#[verifier::spinoff_prover]
proof fn lemma_leading(counts: Seq<(Script, nat)>)
    requires
        counts.len() > 0,
    ensures
        leading(counts) is Some,
        counts.contains(leading(counts)->0),
        forall|i: int| 0 <= i < counts.len() ==> (#[trigger] counts[i]).1 <= (leading(counts)->0).1,
    decreases counts.len(),
{
    let last = counts.len() - 1;
    assert(counts[last] == counts.last());
    if counts.len() > 1 {
        let before = counts.drop_last();
        lemma_leading(before);
        let best = leading(before)->0;
        let k = choose|k: int| 0 <= k < before.len() && before[k] == best;
        assert(counts[k] == best);
        if leading(counts)->0 == best {
            assert(counts[k] == leading(counts)->0);
        } else {
            assert(counts[last] == leading(counts)->0);
        }
        assert forall|i: int| 0 <= i < counts.len() implies (#[trigger] counts[i]).1 <= (leading(
            counts,
        )->0).1 by {
            if i < last {
                assert(before[i] == counts[i]);
            }
        }
    } else {
        assert(counts.drop_last() =~= Seq::empty());
        assert(counts[last] == leading(counts)->0);
    }
}

/// Script detection is exact: the dominant script of a text has at least as many letters in it as
/// any other, and a text has no dominant script only when it holds no letter.
pub proof fn law_dominant_script_has_most_letters(text: Seq<char>, s: Script)
    ensures
        match dominant(text) {
            Some(d) => letters_of(text, d) > 0 && letters_of(text, s) <= letters_of(text, d),
            None => letters_of(text, s) == 0,
        },
{
    let seen = scripts_seen(text);
    let counts = counts_of(text);
    assert(counts.len() == seen.len());
    lemma_seen(text);
    if seen.len() > 0 {
        lemma_leading(counts);
        let best = leading(counts)->0;
        let k = choose|k: int| 0 <= k < counts.len() && counts[k] == best;
        assert(best == (seen[k], letters_of(text, seen[k])));
        assert(seen.contains(seen[k]));
        if letters_of(text, s) > 0 {
            assert(seen.contains(s));
            let j = choose|j: int| 0 <= j < seen.len() && seen[j] == s;
            assert(counts[j] == (s, letters_of(text, s)));
        }
    } else {
        assert(!seen.contains(s));
    }
}

/// No script is named `unknown`.
pub proof fn lemma_script_names(s: Script)
    ensures
        script_name(s) != "unknown"@,
        script_name(s) == "latin"@ ==> s == Script::Latin,
{
    reveal_strlit("unknown");
    reveal_strlit("latin");
    reveal_strlit("greek");
    reveal_strlit("cyrillic");
    reveal_strlit("armenian");
    reveal_strlit("hebrew");
    reveal_strlit("arabic");
    reveal_strlit("devanagari");
    reveal_strlit("bengali");
    reveal_strlit("gurmukhi");
    reveal_strlit("gujarati");
    reveal_strlit("oriya");
    reveal_strlit("tamil");
    reveal_strlit("telugu");
    reveal_strlit("kannada");
    reveal_strlit("malayalam");
    reveal_strlit("sinhala");
    reveal_strlit("thai");
    reveal_strlit("lao");
    reveal_strlit("tibetan");
    reveal_strlit("myanmar");
    reveal_strlit("georgian");
    reveal_strlit("ethiopic");
    reveal_strlit("khmer");
    reveal_strlit("hangul");
    reveal_strlit("kana");
    reveal_strlit("han");
    reveal_strlit("other");
    assert("unknown"@[0] == 'u');
    assert("latin"@[0] == 'l' && "latin"@[1] == 'a' && "latin"@[2] == 't');
    assert(script_name(s)[0] != 'u');
    assert(s != Script::Latin ==> script_name(s)[0] != 'l' || script_name(s)[2] != 't');
}

/// A text without letters is one of no letter at all.
proof fn lemma_no_letters(text: Seq<char>)
    ensures
        all_letters(text) == 0 <==> (forall|i: int|
            0 <= i < text.len() ==> !alphabetic(#[trigger] text[i])),
    decreases text.len(),
{
    if text.len() > 0 {
        let t = text.drop_last();
        lemma_no_letters(t);
        assert(text[text.len() - 1] == text.last());
        if forall|i: int| 0 <= i < text.len() ==> !alphabetic(#[trigger] text[i]) {
            assert forall|i: int| 0 <= i < t.len() implies !alphabetic(#[trigger] t[i]) by {
                assert(t[i] == text[i]);
            }
        }
        if all_letters(text) == 0 {
            assert forall|i: int| 0 <= i < text.len() implies !alphabetic(#[trigger] text[i]) by {
                if i < t.len() {
                    assert(t[i] == text[i]);
                }
            }
        }
    }
}

/// The script of a text is unknown exactly when it holds no letters.
pub proof fn law_unknown_means_no_letters(text: Seq<char>)
    ensures
        (script_label(dominant(text)) == "unknown"@) <==> (forall|i: int|
            0 <= i < text.len() ==> !alphabetic(#[trigger] text[i])),
        dominant(text) is None <==> all_letters(text) == 0,
{
    lemma_no_letters(text);
    lemma_dominant(text);
    match dominant(text) {
        Some(s) => lemma_script_names(s),
        None => {
            if all_letters(text) > 0 {
                let i = choose|i: int| 0 <= i < text.len() && alphabetic(#[trigger] text[i]);
                lemma_letter_counts(text, i);
                law_dominant_script_has_most_letters(text, script_for(text[i]));
            }
        },
    }
}

/// A letter counts towards its script.
proof fn lemma_letter_counts(text: Seq<char>, i: int)
    requires
        0 <= i < text.len(),
        alphabetic(text[i]),
    ensures
        letters_of(text, script_for(text[i])) > 0,
    decreases text.len(),
{
    if i < text.len() - 1 {
        lemma_letter_counts(text.drop_last(), i);
    }
}

/// Scripts are listed in the dictionary order of their names.
proof fn lemma_scripts_by_name(i: int)
    requires
        0 <= i < 26,
    ensures
        precedes(script_name(SCRIPTS_BY_NAME@[i]), script_name(SCRIPTS_BY_NAME@[i + 1])),
{
    reveal_strlit("arabic");
    reveal_strlit("armenian");
    reveal_strlit("bengali");
    reveal_strlit("cyrillic");
    reveal_strlit("devanagari");
    reveal_strlit("ethiopic");
    reveal_strlit("georgian");
    reveal_strlit("greek");
    reveal_strlit("gujarati");
    reveal_strlit("gurmukhi");
    reveal_strlit("han");
    reveal_strlit("hangul");
    reveal_strlit("hebrew");
    reveal_strlit("kana");
    reveal_strlit("kannada");
    reveal_strlit("khmer");
    reveal_strlit("lao");
    reveal_strlit("latin");
    reveal_strlit("malayalam");
    reveal_strlit("myanmar");
    reveal_strlit("oriya");
    reveal_strlit("other");
    reveal_strlit("sinhala");
    reveal_strlit("tamil");
    reveal_strlit("telugu");
    reveal_strlit("thai");
    reveal_strlit("tibetan");
    reveal_with_fuel(precedes, 6);
}

proof fn lemma_profile_in_order(text: Seq<char>, n: int)
    requires
        0 <= n <= 27,
    ensures
        in_order(keys_of(profile_upto(text, n))),
        n < 27 ==> forall|i: int|
            0 <= i < profile_upto(text, n).len() ==> precedes(
                (#[trigger] profile_upto(text, n)[i]).0,
                script_name(SCRIPTS_BY_NAME@[n]),
            ),
    decreases n,
{
    if n > 0 {
        lemma_profile_in_order(text, n - 1);
        let before = profile_upto(text, n - 1);
        let p = profile_upto(text, n);
        let keys = keys_of(p);
        assert forall|i: int, j: int| 0 <= i < j < keys.len() implies precedes(
            #[trigger] keys[i],
            #[trigger] keys[j],
        ) by {
            assert(p[i] == before[i]);
            if j < before.len() {
                assert(keys_of(before)[i] == keys[i] && keys_of(before)[j] == keys[j]);
            }
        }
        if n < 27 {
            lemma_scripts_by_name(n - 1);
            assert forall|i: int| 0 <= i < p.len() implies precedes(
                (#[trigger] p[i]).0,
                script_name(SCRIPTS_BY_NAME@[n]),
            ) by {
                if i < before.len() {
                    assert(p[i] == before[i]);
                    lemma_precedes_chain(
                        p[i].0,
                        script_name(SCRIPTS_BY_NAME@[n - 1]),
                        script_name(SCRIPTS_BY_NAME@[n]),
                    );
                }
            }
        }
    }
}

/// A profile is in the dictionary order of the scripts' names.
pub proof fn law_profile_is_in_order(text: Seq<char>)
    ensures
        in_order(keys_of(profile_of(text))),
{
    lemma_profile_in_order(text, 27);
}

/// A profile lists every script that has letters in the text, with its share of them; a text
/// without letters has none.
pub proof fn law_profile_is_complete(text: Seq<char>, s: Script)
    ensures
        letters_of(text, s) > 0 ==> profile_of(text).contains(
            (script_name(s), share_of(letters_of(text, s), all_letters(text))),
        ),
        all_letters(text) == 0 ==> profile_of(text).len() == 0,
{
    lemma_script_is_listed(s);
    let k = choose|k: int| 0 <= k < 27 && #[trigger] SCRIPTS_BY_NAME@[k] == s;
    lemma_profile_upto(text, 27, k);
    if all_letters(text) == 0 {
        lemma_no_profile(text, 27);
    }
}

/// Every script is listed.
proof fn lemma_script_is_listed(s: Script)
    ensures
        exists|k: int| 0 <= k < 27 && #[trigger] SCRIPTS_BY_NAME@[k] == s,
{
    let k: int = match s {
        Script::Arabic => 0,
        Script::Armenian => 1,
        Script::Bengali => 2,
        Script::Cyrillic => 3,
        Script::Devanagari => 4,
        Script::Ethiopic => 5,
        Script::Georgian => 6,
        Script::Greek => 7,
        Script::Gujarati => 8,
        Script::Gurmukhi => 9,
        Script::Han => 10,
        Script::Hangul => 11,
        Script::Hebrew => 12,
        Script::Kana => 13,
        Script::Kannada => 14,
        Script::Khmer => 15,
        Script::Lao => 16,
        Script::Latin => 17,
        Script::Malayalam => 18,
        Script::Myanmar => 19,
        Script::Oriya => 20,
        Script::Other => 21,
        Script::Sinhala => 22,
        Script::Tamil => 23,
        Script::Telugu => 24,
        Script::Thai => 25,
        Script::Tibetan => 26,
    };
    assert(SCRIPTS_BY_NAME@[k] == s);
}

proof fn lemma_no_profile(text: Seq<char>, n: int)
    requires
        n <= 27,
        all_letters(text) == 0,
    ensures
        profile_upto(text, n).len() == 0,
    decreases n,
{
    if n > 0 {
        lemma_no_profile(text, n - 1);
        lemma_letters_bound(text, SCRIPTS_BY_NAME@[n - 1]);
    }
}

proof fn lemma_profile_upto(text: Seq<char>, n: int, k: int)
    requires
        0 <= k < n <= 27,
    ensures
        ({
            let s = SCRIPTS_BY_NAME@[k];
            letters_of(text, s) > 0 ==> profile_upto(text, n).contains(
                (script_name(s), share_of(letters_of(text, s), all_letters(text))),
            )
        }),
    decreases n,
{
    let s = SCRIPTS_BY_NAME@[k];
    let p = profile_upto(text, n);
    let pair = (script_name(s), share_of(letters_of(text, s), all_letters(text)));
    if letters_of(text, s) > 0 {
        if k == n - 1 {
            assert(p[p.len() - 1] == pair);
        } else {
            lemma_profile_upto(text, n - 1, k);
            let before = profile_upto(text, n - 1);
            let i = choose|i: int| 0 <= i < before.len() && before[i] == pair;
            assert(p[i] == pair);
        }
    }
}

/// Detection never reads more than [`MAX_DETECTION_CHARS`] characters of a state.
pub proof fn law_detection_reads_a_bounded_text(state: Json)
    ensures
        state_text_of(state).len() <= MAX_DETECTION_CHARS,
{
}

/// Keys are ignored: objects that hold the same values in the same order read the same.
pub proof fn law_keys_are_ignored(
    a: Seq<(Seq<char>, Json)>,
    b: Seq<(Seq<char>, Json)>,
    depth: nat,
)
    requires
        a.len() == b.len(),
        forall|i: int| 0 <= i < a.len() ==> (#[trigger] a[i]).1 == b[i].1,
    ensures
        leaves_of(Json::Object(a), depth) == leaves_of(Json::Object(b), depth),
        depth == 0 ==> detected(state_text_of(Json::Object(a))) == detected(
            state_text_of(Json::Object(b)),
        ),
{
    lemma_keys_are_ignored(a, b, depth + 1);
}

proof fn lemma_keys_are_ignored(
    a: Seq<(Seq<char>, Json)>,
    b: Seq<(Seq<char>, Json)>,
    depth: nat,
)
    requires
        a.len() == b.len(),
        forall|i: int| 0 <= i < a.len() ==> (#[trigger] a[i]).1 == b[i].1,
    ensures
        leaves_of_fields(a, depth) == leaves_of_fields(b, depth),
    decreases a.len(),
{
    if a.len() > 0 {
        let c = a.subrange(0, a.len() - 1);
        let d = b.subrange(0, b.len() - 1);
        assert forall|i: int| 0 <= i < c.len() implies (#[trigger] c[i]).1 == d[i].1 by {
            assert(a[i].1 == b[i].1);
        }
        lemma_keys_are_ignored(c, d, depth);
        assert(a[a.len() - 1].1 == b[b.len() - 1].1);
    }
}

/// A state in a script other than Latin is never taken for English, and Latin text that names no
/// language is English only when its letters do not speak against it.
pub proof fn law_undecided_is_not_english(text: Seq<char>)
    ensures
        dominant(text) matches Some(s) && s != Script::Latin ==> !detected(text).is_english,
        dominant(text) == Some(Script::Latin) && detected(text).language is None ==> (detected(
            text,
        ).is_english <==> !looks_foreign(diacritic_share(lowercase(text)))),
{
}

/// Every script is exactly its blocks: a code point belongs to it when, and only when, it lies in
/// one of them; and none belongs to the scripts that are not told apart.
pub proof fn law_scripts_are_their_blocks(u: int)
    ensures
        script_at(u) == Some(Script::Latin) <==> (u < 0x0250 || 0x1e00 <= u <= 0x1eff),
        script_at(u) == Some(Script::Greek) <==> (0x0370 <= u <= 0x03ff || 0x1f00 <= u <= 0x1fff),
        script_at(u) == Some(Script::Cyrillic) <==> (0x0400 <= u <= 0x052f || 0x2de0 <= u <= 0x2dff || 0xa640 <= u <= 0xa69f),
        script_at(u) == Some(Script::Armenian) <==> (0x0530 <= u <= 0x058f),
        script_at(u) == Some(Script::Hebrew) <==> (0x0590 <= u <= 0x05ff),
        script_at(u) == Some(Script::Arabic) <==> (0x0600 <= u <= 0x06ff || 0x0750 <= u <= 0x077f || 0x08a0 <= u <= 0x08ff || 0xfb50 <= u <= 0xfdff || 0xfe70 <= u <= 0xfeff),
        script_at(u) == Some(Script::Devanagari) <==> (0x0900 <= u <= 0x097f || 0xa8e0 <= u <= 0xa8ff),
        script_at(u) == Some(Script::Bengali) <==> (0x0980 <= u <= 0x09ff),
        script_at(u) == Some(Script::Gurmukhi) <==> (0x0a00 <= u <= 0x0a7f),
        script_at(u) == Some(Script::Gujarati) <==> (0x0a80 <= u <= 0x0aff),
        script_at(u) == Some(Script::Oriya) <==> (0x0b00 <= u <= 0x0b7f),
        script_at(u) == Some(Script::Tamil) <==> (0x0b80 <= u <= 0x0bff),
        script_at(u) == Some(Script::Telugu) <==> (0x0c00 <= u <= 0x0c7f),
        script_at(u) == Some(Script::Kannada) <==> (0x0c80 <= u <= 0x0cff),
        script_at(u) == Some(Script::Malayalam) <==> (0x0d00 <= u <= 0x0d7f),
        script_at(u) == Some(Script::Sinhala) <==> (0x0d80 <= u <= 0x0dff),
        script_at(u) == Some(Script::Thai) <==> (0x0e00 <= u <= 0x0e7f),
        script_at(u) == Some(Script::Lao) <==> (0x0e80 <= u <= 0x0eff),
        script_at(u) == Some(Script::Tibetan) <==> (0x0f00 <= u <= 0x0fff),
        script_at(u) == Some(Script::Myanmar) <==> (0x1000 <= u <= 0x109f),
        script_at(u) == Some(Script::Georgian) <==> (0x10a0 <= u <= 0x10ff),
        script_at(u) == Some(Script::Ethiopic) <==> (0x1200 <= u <= 0x137f),
        script_at(u) == Some(Script::Khmer) <==> (0x1780 <= u <= 0x17ff),
        script_at(u) == Some(Script::Hangul) <==> (0x1100 <= u <= 0x11ff || 0x3130 <= u <= 0x318f || 0xac00 <= u <= 0xd7af),
        script_at(u) == Some(Script::Kana) <==> (0x3040 <= u <= 0x30ff || 0x31f0 <= u <= 0x31ff),
        script_at(u) == Some(Script::Han) <==> (0x3400 <= u <= 0x4dbf || 0x4e00 <= u <= 0x9fff || 0xf900 <= u <= 0xfaff),
        script_at(u) != Some(Script::Other),
{
}

/// Every script goes by its own name in lower case, and every language by its two letters.
pub proof fn law_names(s: Script, l: Language)
    ensures
        script_name(s) == match s {
            Script::Latin => "latin"@,
            Script::Greek => "greek"@,
            Script::Cyrillic => "cyrillic"@,
            Script::Armenian => "armenian"@,
            Script::Hebrew => "hebrew"@,
            Script::Arabic => "arabic"@,
            Script::Devanagari => "devanagari"@,
            Script::Bengali => "bengali"@,
            Script::Gurmukhi => "gurmukhi"@,
            Script::Gujarati => "gujarati"@,
            Script::Oriya => "oriya"@,
            Script::Tamil => "tamil"@,
            Script::Telugu => "telugu"@,
            Script::Kannada => "kannada"@,
            Script::Malayalam => "malayalam"@,
            Script::Sinhala => "sinhala"@,
            Script::Thai => "thai"@,
            Script::Lao => "lao"@,
            Script::Tibetan => "tibetan"@,
            Script::Myanmar => "myanmar"@,
            Script::Georgian => "georgian"@,
            Script::Ethiopic => "ethiopic"@,
            Script::Khmer => "khmer"@,
            Script::Hangul => "hangul"@,
            Script::Kana => "kana"@,
            Script::Han => "han"@,
            Script::Other => "other"@,
        },
        code_of(l) == match l {
            Language::English => "en"@,
            Language::French => "fr"@,
            Language::German => "de"@,
            Language::Spanish => "es"@,
            Language::Portuguese => "pt"@,
            Language::Italian => "it"@,
            Language::Dutch => "nl"@,
            Language::Romanian => "ro"@,
        },
        script_label(Some(s)) == script_name(s),
        script_label(None) == "unknown"@,
{
}

/// Letters are counted one by one: those of a text and those of its continuation add up, for one
/// script as for all of them, and a character counts once, for its own script, if it is a letter.
pub proof fn law_letters_add_up(a: Seq<char>, b: Seq<char>, c: char, s: Script)
    ensures
        letters_of(a + b, s) == letters_of(a, s) + letters_of(b, s),
        all_letters(a + b) == all_letters(a) + all_letters(b),
        letters_of(seq![c], s) == if alphabetic(c) && (script_at(c as int) == Some(s) || (script_at(
            c as int,
        ) is None && s == Script::Other)) {
            1nat
        } else {
            0
        },
        all_letters(seq![c]) == if alphabetic(c) {
            1nat
        } else {
            0
        },
    decreases b.len(),
{
    reveal_with_fuel(letters_of, 2);
    reveal_with_fuel(all_letters, 2);
    law_scripts_are_their_blocks(c as int);
    assert(seq![c].drop_last() =~= Seq::empty());
    if b.len() == 0 {
        assert(a + b =~= a);
    } else {
        assert((a + b).drop_last() =~= a + b.drop_last());
        law_letters_add_up(a, b.drop_last(), c, s);
    }
}

proof fn lemma_one_script(text: Seq<char>, s: Script)
    requires
        forall|i: int|
            0 <= i < text.len() && alphabetic(#[trigger] text[i]) ==> script_for(text[i]) == s,
    ensures
        letters_of(text, s) == all_letters(text),
        forall|t: Script| t != s ==> #[trigger] letters_of(text, t) == 0,
    decreases text.len(),
{
    if text.len() > 0 {
        let rest = text.drop_last();
        assert forall|i: int| 0 <= i < rest.len() && alphabetic(#[trigger] rest[i]) implies
            script_for(rest[i]) == s by {
            assert(rest[i] == text[i]);
        }
        lemma_one_script(rest, s);
        assert(text[text.len() - 1] == text.last());
        assert forall|t: Script| t != s implies #[trigger] letters_of(text, t) == 0 by {
            assert(letters_of(rest, t) == 0);
        }
    }
}

/// A text whose letters are all of one script, and that has one, is in that script; and unless the
/// script is Latin it is not taken for English.
pub proof fn law_text_in_one_script(text: Seq<char>, s: Script, k: int)
    requires
        0 <= k < text.len(),
        alphabetic(text[k]),
        forall|i: int|
            0 <= i < text.len() && alphabetic(#[trigger] text[i]) ==> script_at(text[i] as int)
                == Some(s),
    ensures
        dominant(text) == Some(s),
        detected(text).script == script_name(s),
        s != Script::Latin ==> !detected(text).is_english && detected(text).language is None
            && detected(text).language_undecided,
        letters_of(text, s) == all_letters(text) > 0,
{
    lemma_one_script(text, s);
    lemma_letter_counts(text, k);
    law_dominant_script_has_most_letters(text, s);
    law_dominant_script_has_most_letters(text, dominant(text)->0);
    if dominant(text) != Some(s) {
        assert(letters_of(text, dominant(text)->0) == 0);
    }
}

/// What detection says of a text hangs together: the script is the dominant one, only Latin text is
/// given a language, no language means that it is undecided, and a text that is given a language is
/// English exactly when it is the language of the English code.
pub proof fn law_detection_is_consistent(text: Seq<char>)
    ensures
        ({
            let d = detected(text);
            &&& d.script == script_label(dominant(text))
            &&& d.script_profile == profile_of(text)
            &&& d.language is None <==> d.language_undecided
            &&& d.language is Some ==> dominant(text) == Some(Script::Latin)
            &&& d.language is Some ==> (d.is_english <==> d.language == Some("en"@))
            &&& dominant(text) != Some(Script::Latin) ==> (d.is_english <==> dominant(
                text,
            ) is None)
            &&& dominant(text) != Some(Script::Latin) ==> d.diacritic_rate.bits == 0
            &&& dominant(text) is None ==> d.non_latin_fraction.bits == 0
        }),
{
    reveal_strlit("en");
    reveal_strlit("fr");
    reveal_strlit("de");
    reveal_strlit("es");
    reveal_strlit("pt");
    reveal_strlit("it");
    reveal_strlit("nl");
    reveal_strlit("ro");
    assert("en"@[0] == 'e' && "en"@[1] == 'n');
    assert("es"@[1] == 's');
    assert("fr"@[0] == 'f' && "de"@[0] == 'd' && "pt"@[0] == 'p');
    assert("it"@[0] == 'i' && "nl"@[0] == 'n' && "ro"@[0] == 'r');
}

proof fn lemma_leading_is_first(counts: Seq<(Script, nat)>, k: int)
    requires
        0 <= k < counts.len(),
        forall|i: int| 0 <= i < counts.len() ==> (#[trigger] counts[i]).1 <= counts[k].1,
        forall|i: int| 0 <= i < k ==> (#[trigger] counts[i]).1 < counts[k].1,
    ensures
        leading(counts) == Some(counts[k]),
    decreases counts.len(),
{
    let before = counts.drop_last();
    let last = counts.len() - 1;
    assert(counts[last] == counts.last());
    if k < last {
        assert forall|i: int| 0 <= i < before.len() implies (#[trigger] before[i]).1
            <= before[k].1 by {
            assert(before[i] == counts[i]);
        }
        assert forall|i: int| 0 <= i < k implies (#[trigger] before[i]).1 < before[k].1 by {
            assert(before[i] == counts[i]);
        }
        lemma_leading_is_first(before, k);
        assert(counts[last].1 <= counts[k].1);
    } else if before.len() > 0 {
        lemma_leading(before);
        let j = choose|j: int| 0 <= j < before.len() && before[j] == leading(before)->0;
        assert(before[j] == counts[j]);
        assert(counts[j].1 < counts[k].1);
    }
}

/// Of two scripts that are seen, the one that is listed first has a letter before any letter of the
/// other.
proof fn lemma_seen_in_order(text: Seq<char>, p: int, q: int, i: int)
    requires
        0 <= p < q < scripts_seen(text).len(),
        0 <= i < text.len(),
        alphabetic(text[i]),
        script_for(text[i]) == scripts_seen(text)[q],
    ensures
        exists|j: int|
            0 <= j < i && alphabetic(#[trigger] text[j]) && script_for(text[j]) == scripts_seen(
                text,
            )[p],
    decreases text.len(),
{
    let rest = text.drop_last();
    let before = scripts_seen(rest);
    let seen = scripts_seen(text);
    let last = text.len() - 1;
    assert(text[last] == text.last());
    lemma_seen(rest);
    assert(p < before.len() && before[p] == seen[p]);
    if i < last {
        lemma_letter_counts(rest, i);
        assert(rest[i] == text[i]);
        assert(before.contains(seen[q]));
        if q == before.len() {
            assert(!before.contains(seen[q]));
        }
        lemma_seen_in_order(rest, p, q, i);
        let j = choose|j: int|
            0 <= j < i && alphabetic(#[trigger] rest[j]) && script_for(rest[j]) == before[p];
        assert(text[j] == rest[j]);
    } else {
        assert(before.contains(before[p]));
        assert(letters_of(rest, before[p]) > 0);
        let j = lemma_some_letter(rest, before[p]);
        assert(text[j] == rest[j]);
    }
}

proof fn lemma_some_letter(text: Seq<char>, s: Script) -> (j: int)
    requires
        letters_of(text, s) > 0,
    ensures
        0 <= j < text.len(),
        alphabetic(text[j]),
        script_for(text[j]) == s,
    decreases text.len(),
{
    if is_letter_of(text.last(), s) {
        text.len() - 1
    } else {
        let j = lemma_some_letter(text.drop_last(), s);
        assert(text.drop_last()[j] == text[j]);
        j
    }
}

/// Of scripts with equally many letters, the one that is seen first is dominant.
pub proof fn law_ties_go_to_the_script_seen_first(text: Seq<char>, i: int)
    requires
        0 <= i < text.len(),
        alphabetic(text[i]),
        forall|t: Script|
            #[trigger] letters_of(text, t) <= letters_of(text, script_for(text[i])),
        forall|j: int|
            0 <= j < i && alphabetic(#[trigger] text[j]) ==> letters_of(text, script_for(text[j]))
                < letters_of(text, script_for(text[i])),
    ensures
        dominant(text) == Some(script_for(text[i])),
{
    let s = script_for(text[i]);
    let seen = scripts_seen(text);
    let counts = counts_of(text);
    lemma_seen(text);
    lemma_letter_counts(text, i);
    assert(seen.contains(s));
    let k = choose|k: int| 0 <= k < seen.len() && seen[k] == s;
    assert(counts.len() == seen.len());
    assert(counts[k] == (s, letters_of(text, s)));
    assert forall|m: int| 0 <= m < counts.len() implies (#[trigger] counts[m]).1
        <= counts[k].1 by {
        assert(counts[m] == (seen[m], letters_of(text, seen[m])));
    }
    assert forall|m: int| 0 <= m < k implies (#[trigger] counts[m]).1 < counts[k].1 by {
        assert(counts[m] == (seen[m], letters_of(text, seen[m])));
        lemma_seen_in_order(text, m, k, i);
    }
    lemma_leading_is_first(counts, k);
}

/// A character that is not a letter ends a word: the words of a text with one in it are those
/// before it and those behind it.
pub proof fn law_words_end_at_what_is_no_letter(a: Seq<char>, c: char, b: Seq<char>)
    requires
        !alphabetic(c),
    ensures
        words_of(a + seq![c] + b) == words_of(a) + words_of(b),
{
    lemma_words_split(a, c, b, Seq::empty());
}

proof fn lemma_words_split(a: Seq<char>, c: char, b: Seq<char>, cur: Seq<char>)
    requires
        !alphabetic(c),
    ensures
        words_after(a + seq![c] + b, cur) == words_after(a, cur) + words_of(b),
    decreases a.len(),
{
    let t = a + seq![c] + b;
    if a.len() == 0 {
        assert(t.drop_first() =~= b);
        assert(cur.len() == 0 ==> cur =~= Seq::empty());
        assert(words_after(t, cur) =~= words_after(a, cur) + words_of(b));
    } else {
        let r = a.drop_first();
        assert(t.drop_first() =~= r + seq![c] + b);
        assert(t[0] == a[0]);
        if alphabetic(a[0]) {
            lemma_words_split(r, c, b, cur + lowered(a[0]));
        } else if cur.len() == 0 {
            lemma_words_split(r, c, b, cur);
        } else {
            lemma_words_split(r, c, b, Seq::empty());
            assert(seq![cur] + (words_after(r, Seq::empty()) + words_of(b)) =~= (seq![cur]
                + words_after(r, Seq::empty())) + words_of(b));
        }
    }
}

/// Letters that stand together are one word: a text of ASCII letters alone is the single word of its
/// letters in lower case.
pub proof fn law_letters_together_are_one_word(text: Seq<char>)
    requires
        text.len() > 0,
        forall|i: int| 0 <= i < text.len() ==> is_ascii_letter(#[trigger] text[i]),
    ensures
        words_of(text) == seq![ascii_lowercase(text)],
{
    lemma_one_word(text, Seq::empty());
    assert(Seq::empty() + ascii_lowercase(text) =~= ascii_lowercase(text));
}

proof fn lemma_one_word(text: Seq<char>, cur: Seq<char>)
    requires
        text.len() + cur.len() > 0,
        forall|i: int| 0 <= i < text.len() ==> is_ascii_letter(#[trigger] text[i]),
    ensures
        words_after(text, cur) == seq![cur + ascii_lowercase(text)],
    decreases text.len(),
{
    if text.len() == 0 {
        assert(cur + ascii_lowercase(text) =~= cur);
    } else {
        let r = text.drop_first();
        assert(is_ascii_letter(text[0]));
        assert forall|i: int| 0 <= i < r.len() implies is_ascii_letter(#[trigger] r[i]) by {
            assert(r[i] == text[i + 1]);
        }
        assert(lowered(text[0]) == seq![ascii_lower(text[0])]);
        lemma_one_word(r, cur + lowered(text[0]));
        assert(cur + lowered(text[0]) + ascii_lowercase(r) =~= cur + ascii_lowercase(text));
    }
}

/// Text is read as it is, up to four thousand characters of it.
pub proof fn law_a_string_is_read_as_it_is(s: Seq<char>)
    ensures
        s.len() <= 4000 ==> state_text_of(Json::Text(s)) == s,
        s.len() > 4000 ==> state_text_of(Json::Text(s)) == s.take(4000),
{
    reveal_with_fuel(joined, 2);
    assert(seq![s].drop_last() =~= Seq::empty());
    assert(joined(seq![s], " "@) =~= s);
}

/// The strings of an array are those of its items, in their order, and those of an object those of
/// its values; no other value holds any.
pub proof fn law_strings_are_read_in_order(
    a: Seq<Json>,
    b: Seq<Json>,
    f: Seq<(Seq<char>, Json)>,
    g: Seq<(Seq<char>, Json)>,
    j: Json,
    key: Seq<char>,
    depth: nat,
)
    ensures
        leaves_of(Json::Array(a + b), depth) == leaves_of(Json::Array(a), depth) + leaves_of(
            Json::Array(b),
            depth,
        ),
        leaves_of(Json::Object(f + g), depth) == leaves_of(Json::Object(f), depth) + leaves_of(
            Json::Object(g),
            depth,
        ),
        depth < 6 ==> leaves_of(Json::Array(seq![j]), depth) == leaves_of(j, depth + 1),
        depth < 6 ==> leaves_of(Json::Object(seq![(key, j)]), depth) == leaves_of(j, depth + 1),
        depth <= 6 ==> leaves_of(Json::Text(key), depth) == seq![key],
        depth > 6 ==> leaves_of(j, depth).len() == 0,
        depth == 6 && (j is Array || j is Object) ==> leaves_of(j, depth).len() == 0,
        j is Null || j is Bool || j is Number ==> leaves_of(j, depth).len() == 0,
{
    lemma_items_in_order(a, b, depth + 1);
    lemma_fields_in_order(f, g, depth + 1);
    reveal_with_fuel(leaves_of_items, 2);
    reveal_with_fuel(leaves_of_fields, 2);
    assert(seq![j].subrange(0, 0) =~= Seq::empty());
    assert(seq![(key, j)].subrange(0, 0) =~= Seq::empty());
    assert(leaves_of_items(seq![j], depth + 1) =~= leaves_of(j, depth + 1));
    assert(leaves_of_fields(seq![(key, j)], depth + 1) =~= leaves_of(j, depth + 1));
    if depth == 6 {
        if j is Array {
            lemma_too_deep(j->Array_0);
        }
        if j is Object {
            lemma_too_deep_fields(j->Object_0);
        }
    }
    if depth > 6 {
        assert(leaves_of(Json::Array(a), depth) + leaves_of(Json::Array(b), depth)
            =~= Seq::empty());
        assert(leaves_of(Json::Object(f), depth) + leaves_of(Json::Object(g), depth)
            =~= Seq::empty());
    }
}

proof fn lemma_too_deep(items: Seq<Json>)
    ensures
        leaves_of_items(items, 7).len() == 0,
    decreases items.len(),
{
    if items.len() > 0 {
        lemma_too_deep(items.subrange(0, items.len() - 1));
        assert(leaves_of(items[items.len() - 1], 7).len() == 0);
    }
}

proof fn lemma_too_deep_fields(fields: Seq<(Seq<char>, Json)>)
    ensures
        leaves_of_fields(fields, 7).len() == 0,
    decreases fields.len(),
{
    if fields.len() > 0 {
        lemma_too_deep_fields(fields.subrange(0, fields.len() - 1));
        assert(leaves_of(fields[fields.len() - 1].1, 7).len() == 0);
    }
}

proof fn lemma_items_in_order(a: Seq<Json>, b: Seq<Json>, depth: nat)
    ensures
        leaves_of_items(a + b, depth) == leaves_of_items(a, depth) + leaves_of_items(b, depth),
    decreases b.len(),
{
    if b.len() == 0 {
        assert(a + b =~= a);
        assert(leaves_of_items(a, depth) + leaves_of_items(b, depth) =~= leaves_of_items(
            a,
            depth,
        ));
    } else {
        let c = b.subrange(0, b.len() - 1);
        lemma_items_in_order(a, c, depth);
        assert((a + b).subrange(0, (a + b).len() - 1) =~= a + c);
        assert((a + b)[(a + b).len() - 1] == b[b.len() - 1]);
        assert(leaves_of_items(a + b, depth) =~= leaves_of_items(a, depth) + leaves_of_items(
            b,
            depth,
        ));
    }
}

proof fn lemma_fields_in_order(
    a: Seq<(Seq<char>, Json)>,
    b: Seq<(Seq<char>, Json)>,
    depth: nat,
)
    ensures
        leaves_of_fields(a + b, depth) == leaves_of_fields(a, depth) + leaves_of_fields(b, depth),
    decreases b.len(),
{
    if b.len() == 0 {
        assert(a + b =~= a);
        assert(leaves_of_fields(a, depth) + leaves_of_fields(b, depth) =~= leaves_of_fields(
            a,
            depth,
        ));
    } else {
        let c = b.subrange(0, b.len() - 1);
        lemma_fields_in_order(a, c, depth);
        assert((a + b).subrange(0, (a + b).len() - 1) =~= a + c);
        assert((a + b)[(a + b).len() - 1] == b[b.len() - 1]);
        assert(leaves_of_fields(a + b, depth) =~= leaves_of_fields(a, depth) + leaves_of_fields(
            b,
            depth,
        ));
    }
}

/// Function words are counted one by one, each wherever it stands, and letters that English does not
/// use likewise.
pub proof fn law_hits_add_up(
    a: Seq<Seq<char>>,
    b: Seq<Seq<char>>,
    w: Seq<char>,
    l: Language,
    s: Seq<char>,
    t: Seq<char>,
    c: char,
)
    ensures
        hits_of(a + b, l) == hits_of(a, l) + hits_of(b, l),
        hits_of(seq![w], l) == if listed(stopwords_of(l), w) {
            1nat
        } else {
            0
        },
        diacritics_of(s + t) == diacritics_of(s) + diacritics_of(t),
        diacritics_of(seq![c]) == if NON_EN_DIACRITICS@.contains(c) {
            1nat
        } else {
            0
        },
    decreases b.len() + t.len(),
{
    reveal_with_fuel(hits_of, 2);
    reveal_with_fuel(diacritics_of, 2);
    assert(seq![w].drop_last() =~= Seq::empty());
    assert(seq![c].drop_last() =~= Seq::empty());
    if b.len() > 0 {
        assert((a + b).drop_last() =~= a + b.drop_last());
        law_hits_add_up(a, b.drop_last(), w, l, s, t, c);
    } else {
        assert(a + b =~= a);
        if t.len() > 0 {
            assert((s + t).drop_last() =~= s + t.drop_last());
            law_hits_add_up(a, b, w, l, s, t.drop_last(), c);
        } else {
            assert(s + t =~= s);
        }
    }
}

/// Whether the function words of a text are enough to name a language other than English: two at
/// least, and two more than of English, or as many where the letters speak against English.
pub open spec fn stands_out(words: Seq<Seq<char>>, foreign_letters: bool, l: Language) -> bool {
    &&& l != Language::English
    &&& hits_of(words, l) >= 2
    &&& hits_of(words, l) >= hits_of(words, Language::English) + 2 || (foreign_letters && hits_of(
        words,
        l,
    ) >= hits_of(words, Language::English))
}

/// Fewer than four words name no language. Otherwise a language other than English is named exactly
/// when one stands out, and then it is one with the most function words; and English is named exactly
/// when none stands out, the text has one of its function words, and no letters speak against it.
pub proof fn law_language_needs_a_margin(words: Seq<Seq<char>>, foreign_letters: bool, m: Language)
    ensures
        words.len() < 4 ==> language_of(words, foreign_letters) is None,
        words.len() >= 4 && stands_out(words, foreign_letters, m) ==> {
            &&& language_of(words, foreign_letters) is Some
            &&& language_of(words, foreign_letters) != Some(Language::English)
        },
        language_of(words, foreign_letters) matches Some(l) ==> (l != Language::English ==> {
            &&& stands_out(words, foreign_letters, l)
            &&& m != Language::English ==> hits_of(words, m) <= hits_of(words, l)
        }),
        language_of(words, foreign_letters) == Some(Language::English) ==> {
            &&& hits_of(words, Language::English) > 0
            &&& !foreign_letters
            &&& !stands_out(words, foreign_letters, m)
        },
        words.len() >= 4 && hits_of(words, Language::English) > 0 && !foreign_letters ==> {
            &&& language_of(words, foreign_letters) is Some
        },
{
}

/// Where two languages other than English have equally many function words in a text, the earlier of
/// French, German, Spanish, Portuguese, Italian, Dutch and Romanian is named.
pub proof fn law_equal_languages_keep_their_order(
    words: Seq<Seq<char>>,
    foreign_letters: bool,
    m: Language,
)
    requires
        language_of(words, foreign_letters) matches Some(l) && l != Language::English,
        m != Language::English,
        hits_of(words, m) == hits_of(words, language_of(words, foreign_letters)->0),
    ensures
        place_of(language_of(words, foreign_letters)->0) <= place_of(m),
{
}

/// Where a language stands among those that are tried.
pub open spec fn place_of(l: Language) -> int {
    match l {
        Language::English => 0,
        Language::French => 1,
        Language::German => 2,
        Language::Spanish => 3,
        Language::Portuguese => 4,
        Language::Italian => 5,
        Language::Dutch => 6,
        Language::Romanian => 7,
    }
}

proof fn lemma_diacritics_bound(text: Seq<char>)
    ensures
        diacritics_of(text) <= text.len(),
    decreases text.len(),
{
    if text.len() > 0 {
        lemma_diacritics_bound(text.drop_last());
    }
}

/// The letters of a text speak against English when more than one character in fifty is a letter that
/// English does not use, and otherwise not.
pub proof fn law_letters_against_english(text: Seq<char>)
    requires
        text.len() <= 300_000,
    ensures
        looks_foreign(diacritic_share(text)) <==> 50 * diacritics_of(text) > text.len(),
{
    lemma_diacritics_bound(text);
    law_two_hundredths(diacritics_of(text), larger(1, text.len()));
}

/// Short Latin text is English unless more than one character in fifty is a letter that English does
/// not use.
pub proof fn law_short_latin_text(text: Seq<char>)
    requires
        dominant(text) == Some(Script::Latin),
        words_of(text).len() < 4,
        lowercase(text).len() <= 300_000,
    ensures
        detected(text).language is None,
        detected(text).is_english <==> 50 * diacritics_of(lowercase(text)) <= lowercase(text).len(),
{
    law_letters_against_english(lowercase(text));
}

/// A text in one script is all of that script: its share outside Latin is one, or none where that
/// script is Latin, and its profile is that script alone, with the whole of it.
pub proof fn law_shares_of_one_script(text: Seq<char>, s: Script)
    requires
        letters_of(text, s) == all_letters(text),
        0 < all_letters(text) < 0x100_0000,
    ensures
        non_latin_share(text).bits == if s == Script::Latin {
            0u32
        } else {
            0x3f80_0000
        },
        share_of(letters_of(text, s), all_letters(text)).bits == 0x3f80_0000,
        profile_of(text).contains((script_name(s), Float { bits: 0x3f80_0000 })),
        forall|t: Script| t != s ==> #[trigger] letters_of(text, t) == 0,
{
    let n = all_letters(text);
    let latin = letters_of(text, Script::Latin);
    law_quotient_is_nearest(0, n);
    law_quotient_is_nearest(n, n);
    law_whole_is_one(n);
    law_profile_is_complete(text, s);
    assert forall|t: Script| t != s implies #[trigger] letters_of(text, t) == 0 by {
        lemma_two_scripts(text, s, t);
    }
    let q = quotient(latin, n);
    if s == Script::Latin {
        vstd::arithmetic::power2::lemma2_to64();
        law_complement_is_nearest(q);
        lemma_no_bits(complement(q));
    } else {
        assert(latin == 0);
        vstd::arithmetic::power2::lemma2_to64();
        law_complement_is_nearest(q);
        law_whole_is_one(1);
    }
    law_four_decimals(complement(q));
}

/// Only zero has no bits set.
proof fn lemma_no_bits(f: Fraction)
    requires
        normal(f),
        f.s < 150 || f.m == 0,
        bits_of(f) == 0,
    ensures
        f.m == 0,
{
}

/// The letters of two scripts are no more than all letters.
proof fn lemma_two_scripts(text: Seq<char>, s: Script, t: Script)
    requires
        s != t,
    ensures
        letters_of(text, s) + letters_of(text, t) <= all_letters(text),
    decreases text.len(),
{
    if text.len() > 0 {
        lemma_two_scripts(text.drop_last(), s, t);
    }
}

/// No character of ASCII, and so no letter of the English alphabet, speaks against English.
pub proof fn law_ascii_speaks_for_english(c: char, text: Seq<char>)
    requires
        is_ascii_char(c),
        is_ascii_text(text),
        text.len() <= 300_000,
    ensures
        !NON_EN_DIACRITICS@.contains(c),
        diacritics_of(text) == 0,
        !looks_foreign(diacritic_share(text)),
{
    lemma_diacritics_are_not_ascii(c);
    lemma_ascii_has_no_diacritics(text);
    law_letters_against_english(text);
}

proof fn lemma_ascii_has_no_diacritics(text: Seq<char>)
    requires
        is_ascii_text(text),
    ensures
        diacritics_of(text) == 0,
    decreases text.len(),
{
    if text.len() > 0 {
        assert(is_ascii_char(text[text.len() - 1]));
        let t = text.drop_last();
        assert forall|i: int| 0 <= i < t.len() implies is_ascii_char(#[trigger] t[i]) by {
            assert(t[i] == text[i]);
        }
        lemma_ascii_has_no_diacritics(t);
        lemma_diacritics_are_not_ascii(text[text.len() - 1]);
    }
}

proof fn lemma_diacritics_are_not_ascii(c: char)
    requires
        is_ascii_char(c),
    ensures
        !NON_EN_DIACRITICS@.contains(c),
{
    reveal_strlit("àâäãáåçéèêëíìîïñóòôöõøúùûüýÿßæœăâîșțşţąćęłńśźżčďěňřšťůžőűğıāēģīķļņūžđ");
    if NON_EN_DIACRITICS@.contains(c) {
        let i = choose|i: int| 0 <= i < NON_EN_DIACRITICS@.len() && NON_EN_DIACRITICS@[i] == c;
        assert(!is_ascii_char(NON_EN_DIACRITICS@[i]));
    }
}

/// These letters speak against English.
pub proof fn law_letters_english_does_not_use()
    ensures
        NON_EN_DIACRITICS@.contains('\u{e0}'),
        NON_EN_DIACRITICS@.contains('\u{e2}'),
        NON_EN_DIACRITICS@.contains('\u{e4}'),
        NON_EN_DIACRITICS@.contains('\u{e3}'),
        NON_EN_DIACRITICS@.contains('\u{e1}'),
        NON_EN_DIACRITICS@.contains('\u{e5}'),
        NON_EN_DIACRITICS@.contains('\u{e7}'),
        NON_EN_DIACRITICS@.contains('\u{e9}'),
        NON_EN_DIACRITICS@.contains('\u{e8}'),
        NON_EN_DIACRITICS@.contains('\u{ea}'),
        NON_EN_DIACRITICS@.contains('\u{eb}'),
        NON_EN_DIACRITICS@.contains('\u{ed}'),
        NON_EN_DIACRITICS@.contains('\u{ec}'),
        NON_EN_DIACRITICS@.contains('\u{ee}'),
        NON_EN_DIACRITICS@.contains('\u{ef}'),
        NON_EN_DIACRITICS@.contains('\u{f1}'),
        NON_EN_DIACRITICS@.contains('\u{f3}'),
        NON_EN_DIACRITICS@.contains('\u{f2}'),
        NON_EN_DIACRITICS@.contains('\u{f4}'),
        NON_EN_DIACRITICS@.contains('\u{f6}'),
        NON_EN_DIACRITICS@.contains('\u{f5}'),
        NON_EN_DIACRITICS@.contains('\u{f8}'),
        NON_EN_DIACRITICS@.contains('\u{fa}'),
        NON_EN_DIACRITICS@.contains('\u{f9}'),
        NON_EN_DIACRITICS@.contains('\u{fb}'),
        NON_EN_DIACRITICS@.contains('\u{fc}'),
        NON_EN_DIACRITICS@.contains('\u{fd}'),
        NON_EN_DIACRITICS@.contains('\u{ff}'),
        NON_EN_DIACRITICS@.contains('\u{df}'),
        NON_EN_DIACRITICS@.contains('\u{e6}'),
        NON_EN_DIACRITICS@.contains('\u{153}'),
        NON_EN_DIACRITICS@.contains('\u{103}'),
        NON_EN_DIACRITICS@.contains('\u{219}'),
        NON_EN_DIACRITICS@.contains('\u{21b}'),
        NON_EN_DIACRITICS@.contains('\u{15f}'),
        NON_EN_DIACRITICS@.contains('\u{163}'),
        NON_EN_DIACRITICS@.contains('\u{105}'),
        NON_EN_DIACRITICS@.contains('\u{107}'),
        NON_EN_DIACRITICS@.contains('\u{119}'),
        NON_EN_DIACRITICS@.contains('\u{142}'),
        NON_EN_DIACRITICS@.contains('\u{144}'),
        NON_EN_DIACRITICS@.contains('\u{15b}'),
        NON_EN_DIACRITICS@.contains('\u{17a}'),
        NON_EN_DIACRITICS@.contains('\u{17c}'),
        NON_EN_DIACRITICS@.contains('\u{10d}'),
        NON_EN_DIACRITICS@.contains('\u{10f}'),
        NON_EN_DIACRITICS@.contains('\u{11b}'),
        NON_EN_DIACRITICS@.contains('\u{148}'),
        NON_EN_DIACRITICS@.contains('\u{159}'),
        NON_EN_DIACRITICS@.contains('\u{161}'),
        NON_EN_DIACRITICS@.contains('\u{165}'),
        NON_EN_DIACRITICS@.contains('\u{16f}'),
        NON_EN_DIACRITICS@.contains('\u{17e}'),
        NON_EN_DIACRITICS@.contains('\u{151}'),
        NON_EN_DIACRITICS@.contains('\u{171}'),
        NON_EN_DIACRITICS@.contains('\u{11f}'),
        NON_EN_DIACRITICS@.contains('\u{131}'),
        NON_EN_DIACRITICS@.contains('\u{101}'),
        NON_EN_DIACRITICS@.contains('\u{113}'),
        NON_EN_DIACRITICS@.contains('\u{123}'),
        NON_EN_DIACRITICS@.contains('\u{12b}'),
        NON_EN_DIACRITICS@.contains('\u{137}'),
        NON_EN_DIACRITICS@.contains('\u{13c}'),
        NON_EN_DIACRITICS@.contains('\u{146}'),
        NON_EN_DIACRITICS@.contains('\u{16b}'),
        NON_EN_DIACRITICS@.contains('\u{111}'),
{
    reveal_strlit("àâäãáåçéèêëíìîïñóòôöõøúùûüýÿßæœăâîșțşţąćęłńśźżčďěňřšťůžőűğıāēģīķļņūžđ");
    assert(NON_EN_DIACRITICS@[0] == '\u{e0}');
    assert(NON_EN_DIACRITICS@[1] == '\u{e2}');
    assert(NON_EN_DIACRITICS@[2] == '\u{e4}');
    assert(NON_EN_DIACRITICS@[3] == '\u{e3}');
    assert(NON_EN_DIACRITICS@[4] == '\u{e1}');
    assert(NON_EN_DIACRITICS@[5] == '\u{e5}');
    assert(NON_EN_DIACRITICS@[6] == '\u{e7}');
    assert(NON_EN_DIACRITICS@[7] == '\u{e9}');
    assert(NON_EN_DIACRITICS@[8] == '\u{e8}');
    assert(NON_EN_DIACRITICS@[9] == '\u{ea}');
    assert(NON_EN_DIACRITICS@[10] == '\u{eb}');
    assert(NON_EN_DIACRITICS@[11] == '\u{ed}');
    assert(NON_EN_DIACRITICS@[12] == '\u{ec}');
    assert(NON_EN_DIACRITICS@[13] == '\u{ee}');
    assert(NON_EN_DIACRITICS@[14] == '\u{ef}');
    assert(NON_EN_DIACRITICS@[15] == '\u{f1}');
    assert(NON_EN_DIACRITICS@[16] == '\u{f3}');
    assert(NON_EN_DIACRITICS@[17] == '\u{f2}');
    assert(NON_EN_DIACRITICS@[18] == '\u{f4}');
    assert(NON_EN_DIACRITICS@[19] == '\u{f6}');
    assert(NON_EN_DIACRITICS@[20] == '\u{f5}');
    assert(NON_EN_DIACRITICS@[21] == '\u{f8}');
    assert(NON_EN_DIACRITICS@[22] == '\u{fa}');
    assert(NON_EN_DIACRITICS@[23] == '\u{f9}');
    assert(NON_EN_DIACRITICS@[24] == '\u{fb}');
    assert(NON_EN_DIACRITICS@[25] == '\u{fc}');
    assert(NON_EN_DIACRITICS@[26] == '\u{fd}');
    assert(NON_EN_DIACRITICS@[27] == '\u{ff}');
    assert(NON_EN_DIACRITICS@[28] == '\u{df}');
    assert(NON_EN_DIACRITICS@[29] == '\u{e6}');
    assert(NON_EN_DIACRITICS@[30] == '\u{153}');
    assert(NON_EN_DIACRITICS@[31] == '\u{103}');
    assert(NON_EN_DIACRITICS@[34] == '\u{219}');
    assert(NON_EN_DIACRITICS@[35] == '\u{21b}');
    assert(NON_EN_DIACRITICS@[36] == '\u{15f}');
    assert(NON_EN_DIACRITICS@[37] == '\u{163}');
    assert(NON_EN_DIACRITICS@[38] == '\u{105}');
    assert(NON_EN_DIACRITICS@[39] == '\u{107}');
    assert(NON_EN_DIACRITICS@[40] == '\u{119}');
    assert(NON_EN_DIACRITICS@[41] == '\u{142}');
    assert(NON_EN_DIACRITICS@[42] == '\u{144}');
    assert(NON_EN_DIACRITICS@[43] == '\u{15b}');
    assert(NON_EN_DIACRITICS@[44] == '\u{17a}');
    assert(NON_EN_DIACRITICS@[45] == '\u{17c}');
    assert(NON_EN_DIACRITICS@[46] == '\u{10d}');
    assert(NON_EN_DIACRITICS@[47] == '\u{10f}');
    assert(NON_EN_DIACRITICS@[48] == '\u{11b}');
    assert(NON_EN_DIACRITICS@[49] == '\u{148}');
    assert(NON_EN_DIACRITICS@[50] == '\u{159}');
    assert(NON_EN_DIACRITICS@[51] == '\u{161}');
    assert(NON_EN_DIACRITICS@[52] == '\u{165}');
    assert(NON_EN_DIACRITICS@[53] == '\u{16f}');
    assert(NON_EN_DIACRITICS@[54] == '\u{17e}');
    assert(NON_EN_DIACRITICS@[55] == '\u{151}');
    assert(NON_EN_DIACRITICS@[56] == '\u{171}');
    assert(NON_EN_DIACRITICS@[57] == '\u{11f}');
    assert(NON_EN_DIACRITICS@[58] == '\u{131}');
    assert(NON_EN_DIACRITICS@[59] == '\u{101}');
    assert(NON_EN_DIACRITICS@[60] == '\u{113}');
    assert(NON_EN_DIACRITICS@[61] == '\u{123}');
    assert(NON_EN_DIACRITICS@[62] == '\u{12b}');
    assert(NON_EN_DIACRITICS@[63] == '\u{137}');
    assert(NON_EN_DIACRITICS@[64] == '\u{13c}');
    assert(NON_EN_DIACRITICS@[65] == '\u{146}');
    assert(NON_EN_DIACRITICS@[66] == '\u{16b}');
    assert(NON_EN_DIACRITICS@[68] == '\u{111}');
}

/// The function words of English are these, and no more.
pub proof fn law_function_words_of_english(word: Seq<char>)
    ensures
        listed(stopwords_of(Language::English), word) <==> (
            word == "the"@
            || word == "and"@
            || word == "is"@
            || word == "are"@
            || word == "was"@
            || word == "were"@
            || word == "to"@
            || word == "of"@
            || word == "in"@
            || word == "for"@
            || word == "with"@
            || word == "that"@
            || word == "this"@
            || word == "it"@
            || word == "you"@
            || word == "have"@
            || word == "has"@
            || word == "not"@
            || word == "but"@
            || word == "on"@
            || word == "at"@
            || word == "be"@
            || word == "as"@
            || word == "from"@
            || word == "will"@
            || word == "can"@
            || word == "would"@
            || word == "there"@
            || word == "their"@
            || word == "what"@
            || word == "which"@
            || word == "please"@
            || word == "we"@
            || word == "i"@),
{
    let list = stopwords_of(Language::English);
    assert(list[0]@ == "the"@);
    assert(list[1]@ == "and"@);
    assert(list[2]@ == "is"@);
    assert(list[3]@ == "are"@);
    assert(list[4]@ == "was"@);
    assert(list[5]@ == "were"@);
    assert(list[6]@ == "to"@);
    assert(list[7]@ == "of"@);
    assert(list[8]@ == "in"@);
    assert(list[9]@ == "for"@);
    assert(list[10]@ == "with"@);
    assert(list[11]@ == "that"@);
    assert(list[12]@ == "this"@);
    assert(list[13]@ == "it"@);
    assert(list[14]@ == "you"@);
    assert(list[15]@ == "have"@);
    assert(list[16]@ == "has"@);
    assert(list[17]@ == "not"@);
    assert(list[18]@ == "but"@);
    assert(list[19]@ == "on"@);
    assert(list[20]@ == "at"@);
    assert(list[21]@ == "be"@);
    assert(list[22]@ == "as"@);
    assert(list[23]@ == "from"@);
    assert(list[24]@ == "will"@);
    assert(list[25]@ == "can"@);
    assert(list[26]@ == "would"@);
    assert(list[27]@ == "there"@);
    assert(list[28]@ == "their"@);
    assert(list[29]@ == "what"@);
    assert(list[30]@ == "which"@);
    assert(list[31]@ == "please"@);
    assert(list[32]@ == "we"@);
    assert(list[33]@ == "i"@);
    assert(list.len() == 34);
}

/// The function words of French are these, and no more.
pub proof fn law_function_words_of_french(word: Seq<char>)
    ensures
        listed(stopwords_of(Language::French), word) <==> (
            word == "le"@
            || word == "la"@
            || word == "les"@
            || word == "des"@
            || word == "une"@
            || word == "est"@
            || word == "pour"@
            || word == "dans"@
            || word == "que"@
            || word == "qui"@
            || word == "avec"@
            || word == "sur"@
            || word == "pas"@
            || word == "plus"@
            || word == "nous"@
            || word == "vous"@
            || word == "être"@
            || word == "cette"@
            || word == "mais"@
            || word == "sont"@
            || word == "ont"@
            || word == "aux"@
            || word == "ce"@),
{
    let list = stopwords_of(Language::French);
    assert(list[0]@ == "le"@);
    assert(list[1]@ == "la"@);
    assert(list[2]@ == "les"@);
    assert(list[3]@ == "des"@);
    assert(list[4]@ == "une"@);
    assert(list[5]@ == "est"@);
    assert(list[6]@ == "pour"@);
    assert(list[7]@ == "dans"@);
    assert(list[8]@ == "que"@);
    assert(list[9]@ == "qui"@);
    assert(list[10]@ == "avec"@);
    assert(list[11]@ == "sur"@);
    assert(list[12]@ == "pas"@);
    assert(list[13]@ == "plus"@);
    assert(list[14]@ == "nous"@);
    assert(list[15]@ == "vous"@);
    assert(list[16]@ == "être"@);
    assert(list[17]@ == "cette"@);
    assert(list[18]@ == "mais"@);
    assert(list[19]@ == "sont"@);
    assert(list[20]@ == "ont"@);
    assert(list[21]@ == "aux"@);
    assert(list[22]@ == "ce"@);
    assert(list.len() == 23);
}

/// The function words of German are these, and no more.
pub proof fn law_function_words_of_german(word: Seq<char>)
    ensures
        listed(stopwords_of(Language::German), word) <==> (
            word == "der"@
            || word == "die"@
            || word == "das"@
            || word == "und"@
            || word == "ist"@
            || word == "ein"@
            || word == "eine"@
            || word == "den"@
            || word == "dem"@
            || word == "nicht"@
            || word == "mit"@
            || word == "für"@
            || word == "auf"@
            || word == "von"@
            || word == "zu"@
            || word == "sich"@
            || word == "auch"@
            || word == "werden"@
            || word == "wurde"@
            || word == "haben"@
            || word == "sind"@
            || word == "oder"@
            || word == "aber"@),
{
    let list = stopwords_of(Language::German);
    assert(list[0]@ == "der"@);
    assert(list[1]@ == "die"@);
    assert(list[2]@ == "das"@);
    assert(list[3]@ == "und"@);
    assert(list[4]@ == "ist"@);
    assert(list[5]@ == "ein"@);
    assert(list[6]@ == "eine"@);
    assert(list[7]@ == "den"@);
    assert(list[8]@ == "dem"@);
    assert(list[9]@ == "nicht"@);
    assert(list[10]@ == "mit"@);
    assert(list[11]@ == "für"@);
    assert(list[12]@ == "auf"@);
    assert(list[13]@ == "von"@);
    assert(list[14]@ == "zu"@);
    assert(list[15]@ == "sich"@);
    assert(list[16]@ == "auch"@);
    assert(list[17]@ == "werden"@);
    assert(list[18]@ == "wurde"@);
    assert(list[19]@ == "haben"@);
    assert(list[20]@ == "sind"@);
    assert(list[21]@ == "oder"@);
    assert(list[22]@ == "aber"@);
    assert(list.len() == 23);
}

/// The function words of Spanish are these, and no more.
pub proof fn law_function_words_of_spanish(word: Seq<char>)
    ensures
        listed(stopwords_of(Language::Spanish), word) <==> (
            word == "el"@
            || word == "los"@
            || word == "las"@
            || word == "que"@
            || word == "por"@
            || word == "con"@
            || word == "para"@
            || word == "una"@
            || word == "es"@
            || word == "se"@
            || word == "del"@
            || word == "como"@
            || word == "pero"@
            || word == "son"@
            || word == "está"@
            || word == "este"@
            || word == "esta"@
            || word == "todo"@
            || word == "más"@
            || word == "muy"@
            || word == "hay"@
            || word == "sus"@),
{
    let list = stopwords_of(Language::Spanish);
    assert(list[0]@ == "el"@);
    assert(list[1]@ == "los"@);
    assert(list[2]@ == "las"@);
    assert(list[3]@ == "que"@);
    assert(list[4]@ == "por"@);
    assert(list[5]@ == "con"@);
    assert(list[6]@ == "para"@);
    assert(list[7]@ == "una"@);
    assert(list[8]@ == "es"@);
    assert(list[9]@ == "se"@);
    assert(list[10]@ == "del"@);
    assert(list[11]@ == "como"@);
    assert(list[12]@ == "pero"@);
    assert(list[13]@ == "son"@);
    assert(list[14]@ == "está"@);
    assert(list[15]@ == "este"@);
    assert(list[16]@ == "esta"@);
    assert(list[17]@ == "todo"@);
    assert(list[18]@ == "más"@);
    assert(list[19]@ == "muy"@);
    assert(list[20]@ == "hay"@);
    assert(list[21]@ == "sus"@);
    assert(list.len() == 22);
}

/// The function words of Portuguese are these, and no more.
pub proof fn law_function_words_of_portuguese(word: Seq<char>)
    ensures
        listed(stopwords_of(Language::Portuguese), word) <==> (
            word == "os"@
            || word == "as"@
            || word == "que"@
            || word == "em"@
            || word == "um"@
            || word == "uma"@
            || word == "para"@
            || word == "com"@
            || word == "não"@
            || word == "é"@
            || word == "se"@
            || word == "do"@
            || word == "da"@
            || word == "dos"@
            || word == "das"@
            || word == "mas"@
            || word == "são"@
            || word == "está"@
            || word == "este"@
            || word == "esta"@
            || word == "muito"@
            || word == "pelo"@
            || word == "pela"@),
{
    let list = stopwords_of(Language::Portuguese);
    assert(list[0]@ == "os"@);
    assert(list[1]@ == "as"@);
    assert(list[2]@ == "que"@);
    assert(list[3]@ == "em"@);
    assert(list[4]@ == "um"@);
    assert(list[5]@ == "uma"@);
    assert(list[6]@ == "para"@);
    assert(list[7]@ == "com"@);
    assert(list[8]@ == "não"@);
    assert(list[9]@ == "é"@);
    assert(list[10]@ == "se"@);
    assert(list[11]@ == "do"@);
    assert(list[12]@ == "da"@);
    assert(list[13]@ == "dos"@);
    assert(list[14]@ == "das"@);
    assert(list[15]@ == "mas"@);
    assert(list[16]@ == "são"@);
    assert(list[17]@ == "está"@);
    assert(list[18]@ == "este"@);
    assert(list[19]@ == "esta"@);
    assert(list[20]@ == "muito"@);
    assert(list[21]@ == "pelo"@);
    assert(list[22]@ == "pela"@);
    assert(list.len() == 23);
}

/// The function words of Italian are these, and no more.
pub proof fn law_function_words_of_italian(word: Seq<char>)
    ensures
        listed(stopwords_of(Language::Italian), word) <==> (
            word == "il"@
            || word == "lo"@
            || word == "gli"@
            || word == "che"@
            || word == "di"@
            || word == "per"@
            || word == "con"@
            || word == "non"@
            || word == "è"@
            || word == "si"@
            || word == "del"@
            || word == "della"@
            || word == "sono"@
            || word == "questo"@
            || word == "questa"@
            || word == "anche"@
            || word == "come"@
            || word == "più"@
            || word == "nella"@
            || word == "alla"@),
{
    let list = stopwords_of(Language::Italian);
    assert(list[0]@ == "il"@);
    assert(list[1]@ == "lo"@);
    assert(list[2]@ == "gli"@);
    assert(list[3]@ == "che"@);
    assert(list[4]@ == "di"@);
    assert(list[5]@ == "per"@);
    assert(list[6]@ == "con"@);
    assert(list[7]@ == "non"@);
    assert(list[8]@ == "è"@);
    assert(list[9]@ == "si"@);
    assert(list[10]@ == "del"@);
    assert(list[11]@ == "della"@);
    assert(list[12]@ == "sono"@);
    assert(list[13]@ == "questo"@);
    assert(list[14]@ == "questa"@);
    assert(list[15]@ == "anche"@);
    assert(list[16]@ == "come"@);
    assert(list[17]@ == "più"@);
    assert(list[18]@ == "nella"@);
    assert(list[19]@ == "alla"@);
    assert(list.len() == 20);
}

/// The function words of Dutch are these, and no more.
pub proof fn law_function_words_of_dutch(word: Seq<char>)
    ensures
        listed(stopwords_of(Language::Dutch), word) <==> (
            word == "het"@
            || word == "een"@
            || word == "van"@
            || word == "is"@
            || word == "op"@
            || word == "te"@
            || word == "dat"@
            || word == "niet"@
            || word == "met"@
            || word == "voor"@
            || word == "zijn"@
            || word == "aan"@
            || word == "door"@
            || word == "maar"@
            || word == "ook"@
            || word == "worden"@
            || word == "deze"@
            || word == "naar"@
            || word == "wordt"@),
{
    let list = stopwords_of(Language::Dutch);
    assert(list[0]@ == "het"@);
    assert(list[1]@ == "een"@);
    assert(list[2]@ == "van"@);
    assert(list[3]@ == "is"@);
    assert(list[4]@ == "op"@);
    assert(list[5]@ == "te"@);
    assert(list[6]@ == "dat"@);
    assert(list[7]@ == "niet"@);
    assert(list[8]@ == "met"@);
    assert(list[9]@ == "voor"@);
    assert(list[10]@ == "zijn"@);
    assert(list[11]@ == "aan"@);
    assert(list[12]@ == "door"@);
    assert(list[13]@ == "maar"@);
    assert(list[14]@ == "ook"@);
    assert(list[15]@ == "worden"@);
    assert(list[16]@ == "deze"@);
    assert(list[17]@ == "naar"@);
    assert(list[18]@ == "wordt"@);
    assert(list.len() == 19);
}

/// The function words of Romanian are these, and no more.
pub proof fn law_function_words_of_romanian(word: Seq<char>)
    ensures
        listed(stopwords_of(Language::Romanian), word) <==> (
            word == "și"@
            || word == "să"@
            || word == "este"@
            || word == "sunt"@
            || word == "care"@
            || word == "pentru"@
            || word == "din"@
            || word == "dar"@
            || word == "după"@
            || word == "până"@
            || word == "fără"@
            || word == "ale"@
            || word == "lui"@
            || word == "în"@
            || word == "fost"@
            || word == "acum"@
            || word == "vreau"@
            || word == "trebuie"@
            || word == "foarte"@
            || word == "acest"@
            || word == "această"@
            || word == "acesta"@
            || word == "aceasta"@
            || word == "mi"@
            || word == "ți"@
            || word == "vă"@
            || word == "nu"@),
{
    let list = stopwords_of(Language::Romanian);
    assert(list[0]@ == "și"@);
    assert(list[1]@ == "să"@);
    assert(list[2]@ == "este"@);
    assert(list[3]@ == "sunt"@);
    assert(list[4]@ == "care"@);
    assert(list[5]@ == "pentru"@);
    assert(list[6]@ == "din"@);
    assert(list[7]@ == "dar"@);
    assert(list[8]@ == "după"@);
    assert(list[9]@ == "până"@);
    assert(list[10]@ == "fără"@);
    assert(list[11]@ == "ale"@);
    assert(list[12]@ == "lui"@);
    assert(list[13]@ == "în"@);
    assert(list[14]@ == "fost"@);
    assert(list[15]@ == "acum"@);
    assert(list[16]@ == "vreau"@);
    assert(list[17]@ == "trebuie"@);
    assert(list[18]@ == "foarte"@);
    assert(list[19]@ == "acest"@);
    assert(list[20]@ == "această"@);
    assert(list[21]@ == "acesta"@);
    assert(list[22]@ == "aceasta"@);
    assert(list[23]@ == "mi"@);
    assert(list[24]@ == "ți"@);
    assert(list[25]@ == "vă"@);
    assert(list[26]@ == "nu"@);
    assert(list.len() == 27);
}

/// The counts of a text list every script that has a letter in it, once, with how many it has, and no
/// other.
pub proof fn law_counts_list_what_is_there(text: Seq<char>, s: Script, i: int, j: int)
    ensures
        letters_of(text, s) > 0 ==> counts_of(text).contains((s, letters_of(text, s))),
        0 <= i < counts_of(text).len() ==> {
            &&& counts_of(text)[i].1 == letters_of(text, counts_of(text)[i].0)
            &&& counts_of(text)[i].1 > 0
        },
        0 <= i < j < counts_of(text).len() ==> counts_of(text)[i].0 != counts_of(text)[j].0,
{
    let seen = scripts_seen(text);
    lemma_seen(text);
    if letters_of(text, s) > 0 {
        assert(seen.contains(s));
        let k = choose|k: int| 0 <= k < seen.len() && seen[k] == s;
        assert(counts_of(text)[k] == (s, letters_of(text, s)));
    }
    if 0 <= i < seen.len() {
        assert(seen.contains(seen[i]));
    }
}

/// A profile lists nothing but scripts that have letters in the text.
pub proof fn law_profile_lists_nothing_else(text: Seq<char>, i: int)
    requires
        0 <= i < profile_of(text).len(),
    ensures
        exists|s: Script| #[trigger]
            letters_of(text, s) > 0 && profile_of(text)[i] == (
                script_name(s),
                share_of(letters_of(text, s), all_letters(text)),
            ),
{
    lemma_profile_entry(text, 27, i);
}

proof fn lemma_profile_entry(text: Seq<char>, n: int, i: int)
    requires
        0 <= n <= 27,
        0 <= i < profile_upto(text, n).len(),
    ensures
        exists|s: Script| #[trigger]
            letters_of(text, s) > 0 && profile_upto(text, n)[i] == (
                script_name(s),
                share_of(letters_of(text, s), all_letters(text)),
            ),
    decreases n,
{
    let before = profile_upto(text, n - 1);
    if i < before.len() {
        lemma_profile_entry(text, n - 1, i);
    } else {
        let s = SCRIPTS_BY_NAME@[n - 1];
        assert(letters_of(text, s) > 0);
    }
}

/// A share is the number nearest to its ratio, and what is published of one is a whole number of
/// ten-thousandths, the nearest.
pub proof fn law_shares_are_nearest(n: nat, d: nat, f: Fraction)
    requires
        n <= d,
        0 < d <= 300_000,
        at_most_one(f),
    ensures
        ({
            let s = fraction_of(share_of(n, d));
            2 * distance(s.m * d, n * pow2(s.s)) <= d
        }),
        ({
            let t = times(f, 10000);
            let k = half_up(t);
            &&& published(f).bits == bits_of(rounded(k, 10000)) as u32
            &&& 2 * k * pow2(t.s) <= 2 * t.m + pow2(t.s) < 2 * (k + 1) * pow2(t.s)
        }),
{
    law_quotient_is_nearest(n, d);
    law_four_decimals(f);
    let q = quotient(n, d);
    if n > 0 {
        lemma_share_scale(n, d);
    }
    lemma_bits_round_trip(q);
}

/// The strings of a state are read with a blank between each two: those of two arrays together are those
/// of the one, a blank, and those of the other.
pub proof fn law_strings_are_read_with_blanks(a: Seq<Json>, b: Seq<Json>)
    requires
        leaves_of(Json::Array(a), 0).len() > 0,
        leaves_of(Json::Array(b), 0).len() > 0,
        state_text_of(Json::Array(a)).len() + state_text_of(Json::Array(b)).len() < 4000,
    ensures
        state_text_of(Json::Array(a + b)) == state_text_of(Json::Array(a)) + seq![' ']
            + state_text_of(Json::Array(b)),
{
    reveal_strlit(" ");
    assert(" "@ =~= seq![' ']);
    law_strings_are_read_in_order(a, b, Seq::empty(), Seq::empty(), Json::Null, Seq::empty(), 0);
    law_joining(
        leaves_of(Json::Array(a), 0),
        leaves_of(Json::Array(b), 0),
        Seq::empty(),
        " "@,
    );
}

/// The rates of a detection are those of its text: the share of letters outside Latin wherever there are
/// letters, and for Latin text the share of its characters, in lower case, that English does not use.
pub proof fn law_rates_of_a_detection(text: Seq<char>)
    ensures
        dominant(text) is Some ==> detected(text).non_latin_fraction == published(
            complement(quotient(letters_of(text, Script::Latin), all_letters(text))),
        ),
        dominant(text) == Some(Script::Latin) && lowercase(text).len() > 0 ==> detected(
            text,
        ).diacritic_rate == published(
            quotient(diacritics_of(lowercase(text)), lowercase(text).len()),
        ),
        dominant(text) == Some(Script::Latin) ==> detected(text).language == match language_of(
            words_of(text),
            looks_foreign(diacritic_share(lowercase(text))),
        ) {
            Some(l) => Some(code_of(l)),
            None => None,
        },
{
}

// ----------------------------------------------------------------------- what callers are given

/// A character is given the script of its block, and a text of letters in one script that script's name.
pub proof fn law_given_scripts(c: char, r: Option<Script>, text: &str, name: String, s: Script, k: int)
    requires
        call_ensures(script_of, (c,), r),
        call_ensures(detect_script, (text,), name),
        0 <= k < text@.len(),
        alphabetic(text@[k]),
        forall|i: int|
            0 <= i < text@.len() && alphabetic(#[trigger] text@[i]) ==> script_at(text@[i] as int)
                == Some(s),
    ensures
        r == Some(Script::Latin) <==> ((c as int) < 0x0250 || 0x1e00 <= c as int <= 0x1eff),
        r == script_at(c as int),
        name@ == script_name(s),
{
    law_scripts_are_their_blocks(c as int);
    law_text_in_one_script(text@, s, k);
}

/// A state in one script other than Latin is not English to any caller, and is detected as what its text
/// is.
pub proof fn law_given_detections(state: &Value, r: Detection, english: bool, s: Script, k: int)
    requires
        call_ensures(analyse, (state,), r),
        call_ensures(is_english, (state,), english),
        ({
            let text = state_text_of(state@);
            &&& 0 <= k < text.len()
            &&& alphabetic(text[k])
            &&& forall|i: int|
                0 <= i < text.len() && alphabetic(#[trigger] text[i]) ==> script_at(text[i] as int)
                    == Some(s)
        }),
    ensures
        r.script@ == script_name(s),
        r.is_english == english,
        s != Script::Latin ==> !english,
        r@ == detected(state_text_of(state@)),
{
    law_text_in_one_script(state_text_of(state@), s, k);
}

} // verus!
