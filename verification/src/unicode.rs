//! The Unicode-dependent parts of `std` that detection and name matching rest on.
//!
//! Each is a table lookup that takes pages to write down, so its result carries a name here and
//! the functions that use it are stated over that name. On ASCII characters a line says it all, and
//! there the name gives way to that line.

use vstd::prelude::*;

use crate::text::{is_white, replaced_char, trim_back, trim_front, trimmed};

verus! {

// ----------------------------------------------------------------------- definitions

/// Whether a character is ASCII.
pub open spec fn is_ascii_char(c: char) -> bool {
    (c as u32) < 128
}

/// Whether every character of `s` is ASCII.
pub open spec fn is_ascii_text(s: Seq<char>) -> bool {
    forall|i: int| 0 <= i < s.len() ==> is_ascii_char(#[trigger] s[i])
}

/// Whether a character is an ASCII letter.
pub open spec fn is_ascii_letter(c: char) -> bool {
    ('A' <= c && c <= 'Z') || ('a' <= c && c <= 'z')
}

/// An ASCII character with `A` to `Z` turned into `a` to `z`.
pub open spec fn ascii_lower(c: char) -> char {
    if 'A' <= c && c <= 'Z' {
        (c as u32 + 32) as char
    } else {
        c
    }
}

/// A text with `A` to `Z` turned into `a` to `z`.
pub open spec fn ascii_lowercase(s: Seq<char>) -> Seq<char> {
    Seq::new(s.len(), |i: int| ascii_lower(s[i]))
}

/// What `str::to_lowercase` makes of a text.
pub uninterp spec fn unicode_lowercase(s: Seq<char>) -> Seq<char>;

/// What `char::to_lowercase` makes of a character.
pub uninterp spec fn unicode_lowered(c: char) -> Seq<char>;

/// Whether `char::is_alphabetic` holds of a character.
pub uninterp spec fn unicode_alphabetic(c: char) -> bool;

/// How `{:?}` writes a text: in double quotes, with what cannot be printed escaped.
pub uninterp spec fn debug_text(s: Seq<char>) -> Seq<char>;

/// Whether a character is printable ASCII and neither a quotation mark, an apostrophe nor a
/// backslash.
pub open spec fn prints_as_is(c: char) -> bool {
    ' ' <= c && c <= '~' && c != '"' && c != '\'' && c != '\\'
}

/// Whether every character of a text prints as it is.
pub open spec fn all_prints_as_is(s: Seq<char>) -> bool {
    forall|i: int| 0 <= i < s.len() ==> prints_as_is(#[trigger] s[i])
}

/// A text between two quotation marks.
pub open spec fn in_quotes(s: Seq<char>) -> Seq<char> {
    seq!['"'] + s + seq!['"']
}

/// A text in double quotes, with what cannot be printed escaped.
pub open spec fn quoted(s: Seq<char>) -> Seq<char> {
    if all_prints_as_is(s) {
        in_quotes(s)
    } else {
        debug_text(s)
    }
}

/// A text in lower case.
pub open spec fn lowercase(s: Seq<char>) -> Seq<char> {
    if is_ascii_text(s) {
        ascii_lowercase(s)
    } else {
        unicode_lowercase(s)
    }
}

/// A character in lower case, which may be several.
pub open spec fn lowered(c: char) -> Seq<char> {
    if is_ascii_char(c) {
        seq![ascii_lower(c)]
    } else {
        unicode_lowered(c)
    }
}

/// Whether a character is a letter.
pub open spec fn alphabetic(c: char) -> bool {
    if is_ascii_char(c) {
        is_ascii_letter(c)
    } else {
        unicode_alphabetic(c)
    }
}

// ----------------------------------------------------------------------- operations

/// `str::to_lowercase`: the Unicode lowercase of a text, named [`unicode_lowercase`]. On ASCII text
/// it changes `A` to `Z` and nothing else.
#[verifier::external_body]
pub(crate) fn to_lowercase(s: &str) -> (r: String)
    ensures
        r@ == unicode_lowercase(s@),
        is_ascii_text(s@) ==> r@ == ascii_lowercase(s@),
{
    s.to_lowercase()
}

/// `char::to_lowercase`: the Unicode lowercase of one character, which may be several, named
/// [`unicode_lowered`]. Of an ASCII character it is one character, and only `A` to `Z` change.
#[verifier::external_body]
pub(crate) fn lower_char(c: char) -> (r: Vec<char>)
    ensures
        r@ == unicode_lowered(c),
        is_ascii_char(c) ==> r@ == seq![ascii_lower(c)],
{
    c.to_lowercase().collect()
}

/// `char::is_alphabetic`: Unicode's `Alphabetic` property, named [`unicode_alphabetic`]. The ASCII
/// characters that have it are `A` to `Z` and `a` to `z`.
#[verifier::external_body]
pub(crate) fn is_alphabetic(c: char) -> (r: bool)
    ensures
        r == unicode_alphabetic(c),
        is_ascii_char(c) ==> r == is_ascii_letter(c),
{
    c.is_alphabetic()
}

/// `str`'s `Debug`: the text in double quotes, named [`debug_text`]. What prints as it is stands
/// there unchanged.
#[verifier::external_body]
pub(crate) fn quote(s: &str) -> (r: String)
    ensures
        r@ == debug_text(s@),
        all_prints_as_is(s@) ==> r@ == in_quotes(s@),
{
    format!("{s:?}")
}

// ----------------------------------------------------------------------- lemmas

/// A text without blanks at its ends is trimmed already.
pub proof fn lemma_trimmed_has_no_ends(s: Seq<char>)
    requires
        s.len() > 0 ==> !is_white(s[0]) && !is_white(s.last()),
    ensures
        trimmed(s) == s,
{
}

/// Trimming again changes nothing.
pub proof fn lemma_trimmed_twice(s: Seq<char>)
    ensures
        trimmed(trimmed(s)) == trimmed(s),
        trimmed(s).len() > 0 ==> !is_white(trimmed(s)[0]) && !is_white(trimmed(s).last()),
{
    lemma_trim_front_start(s);
    lemma_trim_back_ends(trim_front(s));
    lemma_trimmed_has_no_ends(trimmed(s));
}

proof fn lemma_trim_front_start(s: Seq<char>)
    ensures
        trim_front(s).len() > 0 ==> !is_white(trim_front(s)[0]),
    decreases s.len(),
{
    if s.len() > 0 && is_white(s[0]) {
        lemma_trim_front_start(s.drop_first());
    }
}

proof fn lemma_trim_back_ends(s: Seq<char>)
    ensures
        trim_back(s).len() > 0 ==> !is_white(trim_back(s).last()) && trim_back(s)[0] == s[0],
    decreases s.len(),
{
    if s.len() > 0 && is_white(s.last()) {
        lemma_trim_back_ends(s.drop_last());
    }
}

pub proof fn lemma_trimmed_is_ascii(s: Seq<char>)
    requires
        is_ascii_text(s),
    ensures
        is_ascii_text(trimmed(s)),
{
    lemma_trim_front_is_ascii(s);
    lemma_trim_back_is_ascii(trim_front(s));
}

proof fn lemma_trim_front_is_ascii(s: Seq<char>)
    requires
        is_ascii_text(s),
    ensures
        is_ascii_text(trim_front(s)),
    decreases s.len(),
{
    if s.len() > 0 && is_white(s[0]) {
        lemma_trim_front_is_ascii(s.drop_first());
    }
}

proof fn lemma_trim_back_is_ascii(s: Seq<char>)
    requires
        is_ascii_text(s),
    ensures
        is_ascii_text(trim_back(s)),
    decreases s.len(),
{
    if s.len() > 0 && is_white(s.last()) {
        lemma_trim_back_is_ascii(s.drop_last());
    }
}

/// Trimming and changing character by character can be done in either order, as long as blanks stay
/// blanks and other characters do not become blanks.
proof fn lemma_trimmed_elsewhere(s: Seq<char>, t: Seq<char>, f: spec_fn(char) -> char)
    requires
        forall|c: char| is_white(#[trigger] f(c)) == is_white(c),
        t == Seq::new(s.len(), |i: int| f(s[i])),
    ensures
        trimmed(t) == Seq::new(trimmed(s).len(), |i: int| f(trimmed(s)[i])),
{
    lemma_trim_front_elsewhere(s, t, f);
    lemma_trim_back_elsewhere(trim_front(s), trim_front(t), f);
}

proof fn lemma_trim_front_elsewhere(s: Seq<char>, t: Seq<char>, f: spec_fn(char) -> char)
    requires
        forall|c: char| is_white(#[trigger] f(c)) == is_white(c),
        t == Seq::new(s.len(), |i: int| f(s[i])),
    ensures
        trim_front(t) == Seq::new(trim_front(s).len(), |i: int| f(trim_front(s)[i])),
    decreases s.len(),
{
    assert(t.len() == s.len());
    if s.len() > 0 {
        assert(t[0] == f(s[0]));
        if is_white(s[0]) {
            let rest = s.drop_first();
            assert(t.drop_first() =~= Seq::new(rest.len(), |i: int| f(rest[i])));
            lemma_trim_front_elsewhere(rest, t.drop_first(), f);
        }
    }
}

proof fn lemma_trim_back_elsewhere(s: Seq<char>, t: Seq<char>, f: spec_fn(char) -> char)
    requires
        forall|c: char| is_white(#[trigger] f(c)) == is_white(c),
        t == Seq::new(s.len(), |i: int| f(s[i])),
    ensures
        trim_back(t) == Seq::new(trim_back(s).len(), |i: int| f(trim_back(s)[i])),
    decreases s.len(),
{
    assert(t.len() == s.len());
    if s.len() > 0 {
        assert(t.last() == f(s.last()));
        if is_white(s.last()) {
            let rest = s.drop_last();
            assert(t.drop_last() =~= Seq::new(rest.len(), |i: int| f(rest[i])));
            lemma_trim_back_elsewhere(rest, t.drop_last(), f);
        }
    }
}

// ----------------------------------------------------------------------- names in a plain form

/// A name in its plain form: without surrounding blanks, in lower case, and with `to` in place of
/// every `from`.
pub open spec fn plain_form(name: Seq<char>, from: char, to: char) -> Seq<char> {
    replaced_char(lowercase(trimmed(name)), from, to)
}

/// Whether a character can stand for another in a plain form: neither a letter nor a blank.
pub open spec fn is_stand_in(c: char) -> bool {
    is_ascii_char(c) && !is_ascii_letter(c) && !is_white(c)
}

/// Whether a text is ASCII in lower case, has no blanks at its ends and does not hold `from`.
pub open spec fn is_plain(s: Seq<char>, from: char) -> bool {
    &&& is_ascii_text(s)
    &&& s.len() > 0 ==> !is_white(s[0]) && !is_white(s.last())
    &&& forall|i: int| 0 <= i < s.len() ==> ascii_lower(#[trigger] s[i]) == s[i] && s[i] != from
}

/// A plain text is its own plain form.
pub proof fn lemma_plain_is_plain(s: Seq<char>, from: char, to: char)
    requires
        is_plain(s, from),
    ensures
        plain_form(s, from, to) == s,
        lowercase(trimmed(s)) == s,
{
    lemma_trimmed_has_no_ends(s);
    assert(ascii_lowercase(s) =~= s);
    assert(replaced_char(s, from, to) =~= s);
}

/// Lower case without surrounding blanks is reached in one go: for an ASCII text, doing it again
/// changes nothing, and neither does putting the text into lower case first. Blanks that are gone
/// already make no difference for any text.
pub proof fn lemma_lower_form(s: Seq<char>)
    ensures
        lowercase(trimmed(trimmed(s))) == lowercase(trimmed(s)),
        is_ascii_text(s) ==> {
            &&& lowercase(trimmed(lowercase(trimmed(s)))) == lowercase(trimmed(s))
            &&& lowercase(trimmed(lowercase(s))) == lowercase(trimmed(s))
        },
{
    lemma_trimmed_twice(s);
    if is_ascii_text(s) {
        let bare = trimmed(s);
        lemma_trimmed_is_ascii(s);
        let lower = |c: char| ascii_lower(c);
        assert forall|c: char| is_white(#[trigger] lower(c)) == is_white(c) by {}
        assert(ascii_lowercase(s) =~= Seq::new(s.len(), |i: int| lower(s[i])));
        lemma_trimmed_elsewhere(s, ascii_lowercase(s), lower);
        assert(trimmed(ascii_lowercase(s)) =~= ascii_lowercase(bare));
        assert(ascii_lowercase(ascii_lowercase(bare)) =~= ascii_lowercase(bare));
        lemma_trimmed_has_no_ends(ascii_lowercase(bare));
    }
}

/// The plain form of an ASCII name is plain, and blanks around the name, its case, and `from` or
/// `to` make no difference to it. Blanks make none for any name.
pub proof fn lemma_plain_form(name: Seq<char>, from: char, to: char)
    requires
        from != to,
        is_stand_in(from),
        is_stand_in(to),
    ensures
        plain_form(trimmed(name), from, to) == plain_form(name, from, to),
        is_ascii_text(name) ==> {
            &&& is_plain(plain_form(name, from, to), from)
            &&& plain_form(lowercase(name), from, to) == plain_form(name, from, to)
            &&& plain_form(replaced_char(name, from, to), from, to) == plain_form(name, from, to)
        },
{
    lemma_trimmed_twice(name);
    lemma_lower_form(name);
    if is_ascii_text(name) {
        let bare = trimmed(name);
        lemma_trimmed_is_ascii(name);
        let swap = |c: char| if c == from { to } else { c };
        assert forall|c: char| is_white(#[trigger] swap(c)) == is_white(c) by {}
        let swapped = replaced_char(name, from, to);
        assert(swapped =~= Seq::new(name.len(), |i: int| swap(name[i])));
        lemma_trimmed_elsewhere(name, swapped, swap);
        assert(trimmed(swapped) =~= replaced_char(bare, from, to));
        assert(replaced_char(ascii_lowercase(replaced_char(bare, from, to)), from, to)
            =~= replaced_char(ascii_lowercase(bare), from, to));
    }
}

// ----------------------------------------------------------------------- laws

/// Lower case changes the capitals of ASCII, each into its own small letter, and nothing else of it; its
/// letters are exactly the capitals and the small letters.
pub proof fn law_ascii(c: char, s: Seq<char>, i: int)
    requires
        is_ascii_char(c),
        is_ascii_text(s),
        0 <= i < s.len(),
    ensures
        alphabetic(c) <==> ('A' <= c && c <= 'Z') || ('a' <= c && c <= 'z'),
        'A' <= c && c <= 'Z' ==> lowered(c) == seq![(c as u32 + 32) as char],
        !('A' <= c && c <= 'Z') ==> lowered(c) == seq![c],
        lowercase(s).len() == s.len(),
        seq![lowercase(s)[i]] == lowered(s[i]),
{
    assert(is_ascii_char(s[i]));
}

/// A text of printable ASCII without quotation marks, apostrophes and backslashes is quoted by two
/// quotation marks around it.
pub proof fn law_plain_text_is_only_quoted(s: Seq<char>)
    requires
        forall|i: int|
            0 <= i < s.len() ==> ' ' <= #[trigger] s[i] && s[i] <= '~' && s[i] != '"' && s[i] != '\''
                && s[i] != '\\',
    ensures
        quoted(s) == seq!['"'] + s + seq!['"'],
{
    assert forall|i: int| 0 <= i < s.len() implies prints_as_is(#[trigger] s[i]) by {
        assert(' ' <= s[i]);
    }
}

} // verus!
