//! The character map of a `Precompiled` normalizer, and whether looking a text up in it stays
//! inside it.
//!
//! The map is written in base64. Its bytes are a length, a trie of that many bytes and the texts
//! that the trie leads to. All numbers are little-endian and have 32 bits. The trie is a double
//! array: a unit holds the label it is entered by, the offset to its children and whether one of
//! them is a value. A lookup goes from the unit at `i` to `i ^ offset`, and from there to
//! `i ^ offset ^ byte` for the next byte of the text. The second step stays within a block of 256
//! units, so that a trie made of whole blocks is never left where the first step stays inside.

use vstd::prelude::*;
use vstd::string::*;

use crate::text::chars_of;

verus! {

// ----------------------------------------------------------------------- base64

/// What a base64 digit stands for; 64 when it is none.
pub open spec fn sextet(c: char) -> int {
    if 'A' <= c && c <= 'Z' {
        c as int - 'A' as int
    } else if 'a' <= c && c <= 'z' {
        c as int - 'a' as int + 26
    } else if '0' <= c && c <= '9' {
        c as int - '0' as int + 52
    } else if c == '+' {
        62
    } else if c == '/' {
        63
    } else {
        64
    }
}

/// How many padding signs stand at the end of a base64 text.
pub open spec fn padding_of(s: Seq<char>) -> int {
    if s.len() < 2 || s[s.len() - 1] != '=' {
        0
    } else if s[s.len() - 2] != '=' {
        1
    } else {
        2
    }
}

/// Whether a text is padded base64.
pub open spec fn is_base64(s: Seq<char>) -> bool {
    &&& s.len() % 4 == 0
    &&& forall|i: int| 0 <= i < s.len() - padding_of(s) ==> sextet(#[trigger] s[i]) < 64
}

/// How many bytes a base64 text stands for.
pub open spec fn byte_count(s: Seq<char>) -> int {
    s.len() / 4 * 3 - padding_of(s)
}

/// The byte at `i` of those that a base64 text stands for.
pub open spec fn byte_at(s: Seq<char>, i: int) -> int {
    let first = sextet(s[i / 3 * 4 + i % 3]);
    let second = sextet(s[i / 3 * 4 + i % 3 + 1]);
    if i % 3 == 0 {
        first * 4 + second / 16
    } else if i % 3 == 1 {
        first % 16 * 16 + second / 4
    } else {
        first % 4 * 64 + second
    }
}

/// The bytes that a base64 text stands for.
pub open spec fn decoded(s: Seq<char>) -> Seq<u8> {
    Seq::new(byte_count(s) as nat, |i: int| byte_at(s, i) as u8)
}

fn digit(c: char) -> (r: u32)
    ensures
        r == sextet(c),
        r <= 64,
{
    if 'A' <= c && c <= 'Z' {
        c as u32 - 'A' as u32
    } else if 'a' <= c && c <= 'z' {
        c as u32 - 'a' as u32 + 26
    } else if '0' <= c && c <= '9' {
        c as u32 - '0' as u32 + 52
    } else if c == '+' {
        62
    } else if c == '/' {
        63
    } else {
        64
    }
}

/// The bytes that a text stands for, if it is padded base64.
pub fn decode(s: &str) -> (r: Option<Vec<u8>>)
    ensures
        match r {
            Some(bytes) => is_base64(s@) && bytes@ == decoded(s@),
            None => !is_base64(s@),
        },
{
    let text = chars_of(s);
    let n: usize = text.len();
    if n % 4 != 0 {
        return None;
    }
    let padding: usize = if n < 2 || text[n - 1] != '=' {
        0
    } else if text[n - 2] != '=' {
        1
    } else {
        2
    };
    let mut digits: Vec<u32> = Vec::new();
    for i in 0..n - padding
        invariant
            text@ == s@,
            n == text@.len(),
            padding == padding_of(s@),
            padding <= n,
            digits@.len() == i,
            forall|j: int|
                0 <= j < i ==> #[trigger] digits@[j] == sextet(s@[j]) && digits@[j] < 64,
    {
        let d: u32 = digit(text[i]);
        if d == 64 {
            assert(sextet(s@[i as int]) == 64);
            return None;
        }
        digits.push(d);
    }
    let count: usize = n / 4 * 3 - padding;
    let mut bytes: Vec<u8> = Vec::new();
    for i in 0..count
        invariant
            n == s@.len(),
            n % 4 == 0,
            padding == padding_of(s@),
            count == byte_count(s@),
            count == n / 4 * 3 - padding,
            digits@.len() == n - padding,
            forall|j: int|
                0 <= j < digits@.len() ==> #[trigger] digits@[j] == sextet(s@[j]) && digits@[j]
                    < 64,
            bytes@.len() == i,
            forall|j: int| 0 <= j < i ==> #[trigger] bytes@[j] == byte_at(s@, j) as u8,
    {
        let at: usize = i / 3 * 4 + i % 3;
        let first: u32 = digits[at];
        let second: u32 = digits[at + 1];
        let byte: u32 = if i % 3 == 0 {
            first * 4 + second / 16
        } else if i % 3 == 1 {
            first % 16 * 16 + second / 4
        } else {
            first % 4 * 64 + second
        };
        bytes.push(byte as u8);
    }
    assert forall|i: int| 0 <= i < s@.len() - padding_of(s@) implies sextet(#[trigger] s@[i])
        < 64 by {
        assert(digits@[i] < 64);
    }
    assert(bytes@ =~= decoded(s@));
    Some(bytes)
}

// ----------------------------------------------------------------------- the map

/// The number at the `k`-th four bytes.
pub open spec fn word_at(b: Seq<u8>, k: int) -> int {
    b[4 * k] + 256 * b[4 * k + 1] + 65536 * b[4 * k + 2] + 16777216 * b[4 * k + 3]
}

/// How many units the trie has.
pub open spec fn unit_count(b: Seq<u8>) -> int {
    word_at(b, 0) / 4
}

/// The unit of the trie at `i`.
pub open spec fn unit_at(b: Seq<u8>, i: int) -> int {
    word_at(b, i + 1)
}

/// How far away the children of a unit are.
pub open spec fn offset_of(unit: int) -> int {
    if unit / 512 % 2 == 1 {
        unit / 1024 * 256
    } else {
        unit / 1024
    }
}

/// Where the children of the unit at `i` are.
pub open spec fn children_of(b: Seq<u8>, i: int) -> int {
    (i as u64 ^ offset_of(unit_at(b, i)) as u64) as int
}

/// Whether a unit is a value and no node.
pub open spec fn is_value(unit: int) -> bool {
    unit >= 0x8000_0000
}

/// Whether one of a unit's children is a value.
pub open spec fn has_value(unit: int) -> bool {
    unit / 256 % 2 == 1
}

/// Whether a text begins `at` bytes behind the trie: no further than the end, and at no byte that
/// continues a character.
pub open spec fn begins_text(b: Seq<u8>, at: int) -> bool {
    let i = 4 + 4 * unit_count(b) + at;
    i == b.len() || (i < b.len() && !(128 <= b[i] < 192))
}

/// Whether a lookup that comes to the unit at `i` can go on.
pub open spec fn leads_on(b: Seq<u8>, i: int) -> bool {
    let unit = unit_at(b, i);
    let next = children_of(b, i);
    &&& i == 0 || !is_value(unit) ==> next < unit_count(b)
    &&& !is_value(unit) && has_value(unit) ==> begins_text(b, unit_at(b, next) % 0x8000_0000)
}

/// Whether no lookup leaves the trie or the texts behind it.
pub open spec fn is_closed(b: Seq<u8>) -> bool {
    &&& b.len() >= 4
    &&& unit_count(b) > 0
    &&& unit_count(b) % 256 == 0
    &&& 4 + 4 * unit_count(b) <= b.len()
    &&& forall|i: int| 0 <= i < unit_count(b) ==> #[trigger] leads_on(b, i)
}

/// Whether a text is a character map that no lookup leaves.
pub open spec fn is_charsmap(s: Seq<char>) -> bool {
    is_base64(s) && is_closed(decoded(s))
}

/// A lookup in a closed map never leaves the trie: from any node it comes to a unit of the trie,
/// whatever byte is next.
pub proof fn law_lookups_stay_inside(b: Seq<u8>, i: int, byte: u8)
    requires
        is_closed(b),
        0 <= i < unit_count(b),
        i == 0 || !is_value(unit_at(b, i)),
    ensures
        0 <= children_of(b, i) < unit_count(b),
        (children_of(b, i) as u64 ^ byte as u64) < unit_count(b),
{
    assert(leads_on(b, i));
    let at = children_of(b, i) as u64;
    let next = byte as u64;
    let count = unit_count(b) as u64;
    assert((at ^ next) < count) by (bit_vector)
        requires
            at < count,
            count % 256 == 0,
            next < 256,
    ;
}

fn word(b: &Vec<u8>, k: usize) -> (r: u64)
    requires
        4 * k + 4 <= b@.len(),
    ensures
        r == word_at(b@, k as int),
        r < 0x1_0000_0000,
{
    assert(b@.len() == b.len());
    let i: usize = 4 * k;
    b[i] as u64 + 256 * (b[i + 1] as u64) + 65536 * (b[i + 2] as u64) + 16777216 * (b[i + 3] as u64)
}

fn goes_on(b: &Vec<u8>, count: usize, i: usize) -> (r: bool)
    requires
        count == unit_count(b@),
        4 + 4 * count <= b@.len(),
        i < count,
    ensures
        r == leads_on(b@, i as int),
{
    let unit: u64 = word(b, i + 1);
    let offset: u64 = if unit / 512 % 2 == 1 {
        unit / 1024 * 256
    } else {
        unit / 1024
    };
    let next: u64 = i as u64 ^ offset;
    let node: bool = unit < 0x8000_0000;
    if (i == 0 || node) && next >= count as u64 {
        return false;
    }
    if node && unit / 256 % 2 == 1 {
        let value: u64 = word(b, next as usize + 1) % 0x8000_0000;
        let behind: usize = b.len() - (4 + 4 * count);
        if value > behind as u64 {
            return false;
        }
        let at: usize = 4 + 4 * count + value as usize;
        return at == b.len() || b[at] < 128 || b[at] >= 192;
    }
    true
}

/// Whether a text is a character map that no lookup leaves.
pub fn charsmap(s: &str) -> (r: bool)
    ensures
        r == is_charsmap(s@),
{
    let b = match decode(s) {
        Some(b) => b,
        None => return false,
    };
    if b.len() < 4 {
        return false;
    }
    let units: u64 = word(&b, 0) / 4;
    if units == 0 || units % 256 != 0 || units > ((b.len() - 4) / 4) as u64 {
        return false;
    }
    let count: usize = units as usize;
    for i in 0..count
        invariant
            count == unit_count(b@),
            4 + 4 * count <= b@.len(),
            forall|j: int| 0 <= j < i ==> #[trigger] leads_on(b@, j),
            is_base64(s@),
            b@ == decoded(s@),
    {
        if !goes_on(&b, count, i) {
            return false;
        }
    }
    true
}

// ----------------------------------------------------------------------- laws

/// The digits of base 64 are the capitals, the small letters, the figures, plus and slash, in that
/// order, and no other character is one.
pub proof fn law_digits_of_base_64(c: char)
    ensures
        sextet(c) < 64 <==> ('A' <= c && c <= 'Z') || ('a' <= c && c <= 'z') || ('0' <= c && c <= '9')
            || c == '+' || c == '/',
        0 <= sextet(c) <= 64,
        'A' <= c && c <= 'Z' ==> sextet(c) == c as int - 65,
        'a' <= c && c <= 'z' ==> sextet(c) == c as int - 71,
        '0' <= c && c <= '9' ==> sextet(c) == c as int + 4,
        sextet('+') == 62,
        sextet('/') == 63,
{
}

/// Three bytes are four digits: read as one number, they are the same number in either base.
pub proof fn law_three_bytes_are_four_digits(s: Seq<char>, k: int)
    requires
        0 <= k,
        4 * k + 4 <= s.len(),
        forall|i: int| 4 * k <= i < 4 * k + 4 ==> sextet(#[trigger] s[i]) < 64,
    ensures
        65536 * byte_at(s, 3 * k) + 256 * byte_at(s, 3 * k + 1) + byte_at(s, 3 * k + 2) == 262144
            * sextet(s[4 * k]) + 4096 * sextet(s[4 * k + 1]) + 64 * sextet(s[4 * k + 2]) + sextet(
            s[4 * k + 3],
        ),
        0 <= byte_at(s, 3 * k) < 256,
        0 <= byte_at(s, 3 * k + 1) < 256,
        0 <= byte_at(s, 3 * k + 2) < 256,
{
    let a = sextet(s[4 * k]);
    let b = sextet(s[4 * k + 1]);
    let c = sextet(s[4 * k + 2]);
    let d = sextet(s[4 * k + 3]);
    assert((3 * k) / 3 == k && (3 * k) % 3 == 0);
    assert((3 * k + 1) / 3 == k && (3 * k + 1) % 3 == 1);
    assert((3 * k + 2) / 3 == k && (3 * k + 2) % 3 == 2);
    assert(0 <= a < 64 && 0 <= b < 64 && 0 <= c < 64 && 0 <= d < 64);
    assert(byte_at(s, 3 * k) == a * 4 + b / 16);
    assert(byte_at(s, 3 * k + 1) == b % 16 * 16 + c / 4);
    assert(byte_at(s, 3 * k + 2) == c % 4 * 64 + d);
}

/// Every padding sign at the end stands for a byte that is not there.
pub proof fn law_padding_signs(s: Seq<char>)
    requires
        is_base64(s),
    ensures
        s.len() % 4 == 0,
        s.len() > 0 && s.last() != '=' ==> decoded(s).len() == s.len() / 4 * 3,
        s.len() > 0 && s.last() == '=' && s[s.len() - 2] != '=' ==> decoded(s).len() == s.len() / 4 * 3
            - 1,
        s.len() > 0 && s.last() == '=' && s[s.len() - 2] == '=' ==> decoded(s).len() == s.len() / 4 * 3
            - 2,
        s.len() == 0 ==> decoded(s).len() == 0,
{
}

} // verus!
