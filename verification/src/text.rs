//! Text as a sequence of characters: the few string operations the rest of the crate is built on,
//! each proved against a definition over `Seq<char>`.

use vstd::prelude::*;
use vstd::string::*;
use vstd::utf8::*;

verus! {

// ----------------------------------------------------------------------- definitions

/// Unicode's `White_Space` property.
pub open spec fn is_white(c: char) -> bool {
    let u = c as int;
    ||| 0x09 <= u <= 0x0d
    ||| u == 0x20
    ||| u == 0x85
    ||| u == 0xa0
    ||| u == 0x1680
    ||| 0x2000 <= u <= 0x200a
    ||| u == 0x2028
    ||| u == 0x2029
    ||| u == 0x202f
    ||| u == 0x205f
    ||| u == 0x3000
}

/// `s` without the white space at its start.
pub open spec fn trim_front(s: Seq<char>) -> Seq<char>
    decreases s.len(),
{
    if s.len() > 0 && is_white(s[0]) {
        trim_front(s.drop_first())
    } else {
        s
    }
}

/// `s` without the white space at its end.
pub open spec fn trim_back(s: Seq<char>) -> Seq<char>
    decreases s.len(),
{
    if s.len() > 0 && is_white(s.last()) {
        trim_back(s.drop_last())
    } else {
        s
    }
}

/// `s` without the white space at either end.
pub open spec fn trimmed(s: Seq<char>) -> Seq<char> {
    trim_back(trim_front(s))
}

/// The character of a decimal digit.
pub open spec fn digit_char(d: nat) -> char {
    (48 + d) as char
}

/// `n` in decimal, without leading zeros.
pub open spec fn decimal(n: nat) -> Seq<char>
    decreases n,
{
    if n < 10 {
        seq![digit_char(n)]
    } else {
        decimal(n / 10).push(digit_char(n % 10))
    }
}

/// Whether `c` is one of `0` to `9`.
pub open spec fn is_digit(c: char) -> bool {
    '0' <= c && c <= '9'
}

/// Whether every character of `s` is a decimal digit.
pub open spec fn all_digits(s: Seq<char>) -> bool {
    forall|i: int| 0 <= i < s.len() ==> is_digit(#[trigger] s[i])
}

/// The number a string of decimal digits writes down.
pub open spec fn digits_value(s: Seq<char>) -> nat
    decreases s.len(),
{
    if s.len() == 0 {
        0
    } else {
        (digits_value(s.drop_last()) * 10 + (s.last() as int - 48)) as nat
    }
}

/// `parts` with `sep` between each two of them.
pub open spec fn joined(parts: Seq<Seq<char>>, sep: Seq<char>) -> Seq<char>
    decreases parts.len(),
{
    if parts.len() == 0 {
        Seq::empty()
    } else if parts.len() == 1 {
        parts[0]
    } else {
        joined(parts.drop_last(), sep) + sep + parts.last()
    }
}

/// The texts of a list of strings.
pub open spec fn texts(v: Seq<String>) -> Seq<Seq<char>> {
    Seq::new(v.len(), |i: int| v[i]@)
}

/// Whether `p` begins `s`.
pub open spec fn begins_with(s: Seq<char>, p: Seq<char>) -> bool {
    p.len() <= s.len() && s.take(p.len() as int) == p
}

/// Whether `p` occurs in `s` at position `i`.
pub open spec fn occurs_at(s: Seq<char>, p: Seq<char>, i: int) -> bool {
    0 <= i && i + p.len() <= s.len() && s.subrange(i, i + p.len()) == p
}

/// Whether `p` occurs anywhere in `s`.
pub open spec fn occurs_in(s: Seq<char>, p: Seq<char>) -> bool {
    exists|i: int| #[trigger] occurs_at(s, p, i)
}

/// `s` with every occurrence of `p`, taken from the left and without overlaps, replaced by `by`.
/// An empty `p` occurs before every character and at the end.
pub open spec fn replaced(s: Seq<char>, p: Seq<char>, by: Seq<char>) -> Seq<char>
    decreases s.len(),
{
    if p.len() == 0 {
        if s.len() == 0 {
            by
        } else {
            by.push(s[0]) + replaced(s.drop_first(), p, by)
        }
    } else if s.len() < p.len() {
        s
    } else if begins_with(s, p) {
        by + replaced(s.skip(p.len() as int), p, by)
    } else {
        seq![s[0]] + replaced(s.drop_first(), p, by)
    }
}

/// `s` with every `from` turned into `to`.
pub open spec fn replaced_char(s: Seq<char>, from: char, to: char) -> Seq<char> {
    Seq::new(s.len(), |i: int| if s[i] == from { to } else { s[i] })
}

/// The position of the first `c` in `s`, or the length of `s` when there is none.
pub open spec fn find_char(s: Seq<char>, c: char) -> nat
    decreases s.len(),
{
    if s.len() == 0 || s[0] == c {
        0
    } else {
        1 + find_char(s.drop_first(), c)
    }
}

/// The part of `s` before the first `c`; all of it when there is none.
pub open spec fn before_char(s: Seq<char>, c: char) -> Seq<char> {
    s.take(find_char(s, c) as int)
}

/// The part of `s` after the first `c`; nothing when there is none.
pub open spec fn after_char(s: Seq<char>, c: char) -> Seq<char> {
    if find_char(s, c) < s.len() {
        s.skip(find_char(s, c) as int + 1)
    } else {
        Seq::empty()
    }
}

/// `s` without the sign it may start with.
pub open spec fn unsigned_part(s: Seq<char>, minus: bool) -> Seq<char> {
    if s.len() > 0 && (s[0] == '+' || (minus && s[0] == '-')) {
        s.drop_first()
    } else {
        s
    }
}

/// The number that `s` writes down as an unsigned machine integer up to `max`: an optional `+`,
/// then at least one decimal digit and nothing else.
pub open spec fn parsed_nat(s: Seq<char>, max: nat) -> Option<nat> {
    let d = unsigned_part(s, false);
    if d.len() > 0 && all_digits(d) && digits_value(d) <= max {
        Some(digits_value(d))
    } else {
        None
    }
}

/// The number that `s` writes down as an `i32`: an optional sign, then at least one decimal digit
/// and nothing else.
pub open spec fn parsed_i32(s: Seq<char>) -> Option<int> {
    let d = unsigned_part(s, true);
    let v = digits_value(d) as int;
    let n = if s.len() > 0 && s[0] == '-' { -v } else { v };
    if d.len() > 0 && all_digits(d) && i32::MIN <= n <= i32::MAX {
        Some(n)
    } else {
        None
    }
}

// ----------------------------------------------------------------------- lemmas

pub proof fn lemma_decimal(n: nat)
    ensures
        decimal(n).len() > 0,
        all_digits(decimal(n)),
        digits_value(decimal(n)) == n,
    decreases n,
{
    if n < 10 {
        assert(decimal(n).drop_last() =~= Seq::empty());
        assert(digits_value(decimal(n).drop_last()) == 0);
    } else {
        lemma_decimal(n / 10);
        assert(decimal(n).drop_last() =~= decimal(n / 10));
    }
}

proof fn lemma_digits_value_push(s: Seq<char>, c: char)
    requires
        is_digit(c),
    ensures
        digits_value(s.push(c)) == digits_value(s) * 10 + (c as int - 48),
{
    assert(s.push(c).drop_last() =~= s);
}

pub proof fn lemma_find_char(s: Seq<char>, c: char)
    ensures
        find_char(s, c) <= s.len(),
        find_char(s, c) < s.len() ==> s[find_char(s, c) as int] == c,
        forall|i: int| 0 <= i < find_char(s, c) ==> s[i] != c,
    decreases s.len(),
{
    if s.len() > 0 && s[0] != c {
        let t = s.drop_first();
        lemma_find_char(t, c);
        assert forall|i: int| 0 <= i < find_char(s, c) implies s[i] != c by {
            if i > 0 {
                assert(t[i - 1] == s[i]);
            }
        }
    }
}

/// A position that holds `c` and has no `c` before it is the first.
pub proof fn lemma_find_char_unique(s: Seq<char>, c: char, i: int)
    requires
        0 <= i <= s.len(),
        i < s.len() ==> s[i] == c,
        forall|j: int| 0 <= j < i ==> s[j] != c,
    ensures
        find_char(s, c) == i,
{
    lemma_find_char(s, c);
    if find_char(s, c) < i {
        assert(s[find_char(s, c) as int] != c);
    }
}

/// Characters other than the blank that start the replaced text start the text it came from.
proof fn lemma_replaced_prefix(s: Seq<char>, p: Seq<char>, q: Seq<char>)
    requires
        p.len() > 0,
        !q.contains(' '),
        begins_with(replaced(s, p, seq![' ']), q),
    ensures
        begins_with(s, q),
    decreases s.len(),
{
    let r = replaced(s, p, seq![' ']);
    if q.len() == 0 {
        assert(s.take(0) =~= q);
    } else if s.len() < p.len() {
    } else if begins_with(s, p) {
        assert(r[0] == ' ');
        assert(r.take(q.len() as int)[0] == q[0]);
        assert(q.contains(' '));
    } else {
        let t = s.drop_first();
        let u = q.drop_first();
        let rest = replaced(t, p, seq![' ']);
        assert(r.take(q.len() as int)[0] == q[0]);
        assert(u =~= rest.take(u.len() as int)) by {
            assert forall|i: int| 0 <= i < u.len() implies u[i] == rest[i] by {
                assert(u[i] == q[i + 1]);
                assert(r.take(q.len() as int)[i + 1] == r[i + 1]);
                assert(r[i + 1] == rest[i]);
            }
        }
        assert(!u.contains(' ')) by {
            if u.contains(' ') {
                let i = choose|i: int| 0 <= i < u.len() && u[i] == ' ';
                assert(q[i + 1] == ' ');
            }
        }
        lemma_replaced_prefix(t, p, u);
        assert(s.take(q.len() as int) =~= q) by {
            assert forall|i: int| 0 <= i < q.len() implies s[i] == q[i] by {
                if i > 0 {
                    assert(t.take(u.len() as int)[i - 1] == u[i - 1]);
                    assert(t[i - 1] == s[i]);
                }
            }
        }
    }
}

/// Once a text without blanks has been replaced by a blank, it no longer occurs.
pub proof fn lemma_replaced_is_free(s: Seq<char>, p: Seq<char>)
    requires
        p.len() > 0,
        !p.contains(' '),
    ensures
        !occurs_in(replaced(s, p, seq![' ']), p),
    decreases s.len(),
{
    let r = replaced(s, p, seq![' ']);
    if s.len() < p.len() {
    } else {
        let rest = if begins_with(s, p) {
            replaced(s.skip(p.len() as int), p, seq![' '])
        } else {
            replaced(s.drop_first(), p, seq![' '])
        };
        if begins_with(s, p) {
            lemma_replaced_is_free(s.skip(p.len() as int), p);
        } else {
            lemma_replaced_is_free(s.drop_first(), p);
        }
        assert forall|i: int| !(#[trigger] occurs_at(r, p, i)) by {
            if occurs_at(r, p, i) {
                if i == 0 {
                    assert(r.subrange(0, p.len() as int) =~= r.take(p.len() as int));
                    lemma_replaced_prefix(s, p, p);
                    assert(r[0] == ' ');
                    assert(r.take(p.len() as int)[0] == p[0]);
                    assert(p.contains(' '));
                } else {
                    assert(rest.subrange(i - 1, i - 1 + p.len()) =~= r.subrange(i, i + p.len()));
                    assert(occurs_at(rest, p, i - 1));
                }
            }
        }
    }
}

// ----------------------------------------------------------------------- operations

/// `String::push` appends one character.
pub assume_specification[ std::string::String::push ](s: &mut std::string::String, c: char)
    ensures
        final(s)@ == old(s)@.push(c),
;

/// The characters of a string.
pub fn chars_of(s: &str) -> (r: Vec<char>)
    ensures
        r@ == s@,
{
    let mut out: Vec<char> = Vec::new();
    for c in it: s.chars()
        invariant
            it.seq() == s@,
            out@ == s@.take(it.index()),
    {
        out.push(c);
    }
    out
}

/// The string of some characters.
pub fn string_of(chars: &[char]) -> (r: String)
    ensures
        r@ == chars@,
{
    let mut out: String = String::new();
    for i in 0..chars.len()
        invariant
            out@ == chars@.take(i as int),
    {
        out.push(chars[i]);
        assert(chars@.take(i + 1) =~= chars@.take(i as int).push(chars@[i as int]));
    }
    assert(chars@.take(chars@.len() as int) =~= chars@);
    out
}

/// Whether two strings hold the same characters.
pub fn same_text(a: &str, b: &str) -> (r: bool)
    ensures
        r == (a@ == b@),
{
    broadcast use encode_utf8_decode_utf8;

    let x = a.as_bytes();
    let y = b.as_bytes();
    proof {
        assert(decode_utf8(encode_utf8(a@)) == a@);
        assert(decode_utf8(encode_utf8(b@)) == b@);
    }
    if x.len() != y.len() {
        return false;
    }
    for i in 0..x.len()
        invariant
            x@ == a.spec_bytes(),
            y@ == b.spec_bytes(),
            x@.len() == y@.len(),
            forall|j: int| 0 <= j < i ==> x@[j] == y@[j],
    {
        if x[i] != y[i] {
            return false;
        }
    }
    assert(x@ =~= y@);
    true
}

/// `n` in decimal.
pub fn decimal_text(n: u64) -> (r: String)
    ensures
        r@ == decimal(n as nat),
    decreases n,
{
    if n < 10 {
        let mut out: String = String::new();
        out.push((48u8 + n as u8) as char);
        out
    } else {
        let mut out = decimal_text(n / 10);
        out.push((48u8 + (n % 10) as u8) as char);
        out
    }
}

/// `parts` with `sep` between each two of them.
pub fn join(parts: &Vec<String>, sep: &str) -> (r: String)
    ensures
        r@ == joined(texts(parts@), sep@),
{
    let mut out: String = String::new();
    let ghost all = texts(parts@);
    for i in 0..parts.len()
        invariant
            all == texts(parts@),
            out@ == joined(all.take(i as int), sep@),
    {
        if i > 0 {
            out.append(sep);
        }
        out.append(parts[i].as_str());
        proof {
            let next = all.take(i + 1);
            assert(next.drop_last() =~= all.take(i as int));
            assert(next.last() == parts@[i as int]@);
            assert(out@ =~= joined(next, sep@));
        }
    }
    assert(all.take(parts@.len() as int) =~= all);
    out
}

fn is_white_char(c: char) -> (r: bool)
    ensures
        r == is_white(c),
{
    let u: u32 = c as u32;
    (0x09 <= u && u <= 0x0d) || u == 0x20 || u == 0x85 || u == 0xa0 || u == 0x1680 || (0x2000 <= u
        && u <= 0x200a) || u == 0x2028 || u == 0x2029 || u == 0x202f || u == 0x205f || u == 0x3000
}

/// `s` without the white space at either end.
pub fn trim(s: &str) -> (r: String)
    ensures
        r@ == trimmed(s@),
{
    let chars = chars_of(s);
    let mut from: usize = 0;
    assert(s@.skip(0) =~= s@);
    while from < chars.len() && is_white_char(chars[from])
        invariant
            chars@ == s@,
            from <= s@.len(),
            trim_front(s@.skip(from as int)) == trim_front(s@),
        decreases s@.len() - from,
    {
        assert(s@.skip(from as int).drop_first() =~= s@.skip(from + 1));
        from += 1;
    }
    let ghost rest = s@.skip(from as int);
    let mut to: usize = chars.len();
    assert(s@.subrange(from as int, to as int) =~= rest);
    while from < to && is_white_char(chars[to - 1])
        invariant
            chars@ == s@,
            from <= to <= s@.len(),
            trim_back(s@.subrange(from as int, to as int)) == trim_back(rest),
        decreases to,
    {
        assert(s@.subrange(from as int, to as int).drop_last() =~= s@.subrange(
            from as int,
            to - 1,
        ));
        to -= 1;
    }
    let mut out: String = String::new();
    for i in from..to
        invariant
            chars@ == s@,
            from <= to <= s@.len(),
            out@ == s@.subrange(from as int, i as int),
    {
        out.push(chars[i]);
        assert(s@.subrange(from as int, i + 1) =~= s@.subrange(from as int, i as int).push(
            s@[i as int],
        ));
    }
    out
}

/// `s` with every `from` turned into `to`.
pub fn replace_char(s: &str, from: char, to: char) -> (r: String)
    ensures
        r@ == replaced_char(s@, from, to),
{
    let mut out: String = String::new();
    for c in it: s.chars()
        invariant
            it.seq() == s@,
            out@ == replaced_char(s@, from, to).take(it.index()),
    {
        out.push(if c == from { to } else { c });
    }
    assert(replaced_char(s@, from, to).take(s@.len() as int) =~= replaced_char(s@, from, to));
    out
}

/// Whether `p` stands in `s` at `i`.
fn stands_at(s: &[char], p: &[char], i: usize) -> (r: bool)
    requires
        i <= s@.len(),
    ensures
        r == begins_with(s@.skip(i as int), p@),
{
    let ghost rest = s@.skip(i as int);
    let n: usize = s.len();
    if n - i < p.len() {
        return false;
    }
    for j in 0..p.len()
        invariant
            n == s@.len(),
            i + p@.len() <= n,
            rest == s@.skip(i as int),
            forall|k: int| 0 <= k < j ==> s@[i + k] == p@[k],
    {
        if s[i + j] != p[j] {
            assert(rest.take(p@.len() as int)[j as int] == s@[i + j]);
            return false;
        }
    }
    assert(rest.take(p@.len() as int) =~= p@);
    true
}

/// `s` with every occurrence of `p` replaced by `by`.
pub fn replace(s: &str, p: &str, by: &str) -> (r: String)
    ensures
        r@ == replaced(s@, p@, by@),
{
    let chars = chars_of(s);
    let pattern = chars_of(p);
    let n: usize = chars.len();
    let mut out: String = String::new();
    let mut i: usize = 0;
    assert(s@.skip(0) =~= s@);
    while i < n && (pattern.len() == 0 || n - i >= pattern.len())
        invariant
            n == s@.len(),
            chars@ == s@,
            pattern@ == p@,
            i <= n,
            replaced(s@, p@, by@) == out@ + replaced(s@.skip(i as int), p@, by@),
        decreases n - i,
    {
        let ghost before = out@;
        let ghost here = s@.skip(i as int);
        if pattern.len() > 0 && stands_at(chars.as_slice(), pattern.as_slice(), i) {
            out.append(by);
            assert(here.skip(p@.len() as int) =~= s@.skip(i + p@.len()));
            i += pattern.len();
            assert(before + replaced(here, p@, by@) =~= out@ + replaced(
                s@.skip(i as int),
                p@,
                by@,
            ));
        } else {
            if pattern.len() == 0 {
                out.append(by);
            }
            out.push(chars[i]);
            assert(here.drop_first() =~= s@.skip(i + 1));
            assert(here[0] == s@[i as int]);
            i += 1;
            assert(before + replaced(here, p@, by@) =~= out@ + replaced(
                s@.skip(i as int),
                p@,
                by@,
            ));
        }
    }
    if pattern.len() == 0 {
        assert(s@.skip(i as int).len() == 0);
        out.append(by);
    } else {
        for k in i..n
            invariant
                n == s@.len(),
                chars@ == s@,
                i <= n,
                out@ + s@.skip(k as int) == replaced(s@, p@, by@),
        {
            let ghost before = out@;
            out.push(chars[k]);
            assert(before + s@.skip(k as int) =~= out@ + s@.skip(k + 1));
        }
        assert(out@ + s@.skip(n as int) =~= out@);
    }
    out
}

/// The position of the first `c`, or the length when there is none.
pub fn position(s: &[char], c: char) -> (r: usize)
    ensures
        r == find_char(s@, c),
        r <= s@.len(),
{
    for i in 0..s.len()
        invariant
            forall|j: int| 0 <= j < i ==> s@[j] != c,
    {
        if s[i] == c {
            proof {
                lemma_find_char_unique(s@, c, i as int);
            }
            return i;
        }
    }
    proof {
        lemma_find_char_unique(s@, c, s@.len() as int);
    }
    s.len()
}

/// Whether `s` begins with `p`.
pub fn starts_with(s: &str, p: &str) -> (r: bool)
    ensures
        r == begins_with(s@, p@),
{
    let chars = chars_of(s);
    let pattern = chars_of(p);
    assert(s@.skip(0) =~= s@);
    stands_at(chars.as_slice(), pattern.as_slice(), 0)
}

/// The unsigned number up to `max` that `s[from..]` writes down.
fn parse_digits(s: &[char], from: usize, max: u64) -> (r: Option<u64>)
    requires
        from <= s@.len(),
    ensures
        ({
            let d = s@.skip(from as int);
            match r {
                Some(n) => d.len() > 0 && all_digits(d) && n == digits_value(d) && n <= max,
                None => d.len() == 0 || !all_digits(d) || digits_value(d) > max,
            }
        }),
{
    let ghost d = s@.skip(from as int);
    if from == s.len() {
        return None;
    }
    let mut n: u64 = 0;
    let mut over: bool = false;
    for i in from..s.len()
        invariant
            from < s@.len(),
            d == s@.skip(from as int),
            all_digits(d.take(i - from)),
            over ==> digits_value(d.take(i - from)) > max,
            !over ==> n == digits_value(d.take(i - from)) && n <= max,
    {
        let c: char = s[i];
        let ghost seen = d.take(i - from);
        assert(d[i - from] == s@[i as int]);
        assert(d.take(i + 1 - from) =~= seen.push(s@[i as int]));
        if c < '0' || c > '9' {
            assert(!is_digit(d[i - from]));
            return None;
        }
        proof {
            assert(is_digit(s@[i as int]));
            lemma_digits_value_push(seen, s@[i as int]);
        }
        if !over {
            let step: u128 = n as u128 * 10 + (c as u32 - 48) as u128;
            if step > max as u128 {
                over = true;
            } else {
                n = step as u64;
            }
        }
    }
    assert(d.take(s@.len() - from) =~= d);
    if over {
        None
    } else {
        Some(n)
    }
}

/// The unsigned machine integer up to `max` that `s` writes down.
pub fn parse_u64(s: &str, max: u64) -> (r: Option<u64>)
    ensures
        match r {
            Some(n) => parsed_nat(s@, max as nat) == Some(n as nat),
            None => parsed_nat(s@, max as nat) is None,
        },
{
    let chars = chars_of(s);
    if chars.len() > 0 && chars[0] == '+' {
        assert(s@.drop_first() =~= s@.skip(1));
        parse_digits(chars.as_slice(), 1, max)
    } else {
        assert(s@.skip(0) =~= s@);
        parse_digits(chars.as_slice(), 0, max)
    }
}

/// The `i32` that `s` writes down.
pub fn parse_i32(s: &str) -> (r: Option<i32>)
    ensures
        match r {
            Some(n) => parsed_i32(s@) == Some(n as int),
            None => parsed_i32(s@) is None,
        },
{
    let chars = chars_of(s);
    if chars.len() > 0 && chars[0] == '-' {
        assert(s@.drop_first() =~= s@.skip(1));
        match parse_digits(chars.as_slice(), 1, 2147483648) {
            Some(n) => Some((0 - n as i64) as i32),
            None => None,
        }
    } else {
        let from: usize = if chars.len() > 0 && chars[0] == '+' { 1 } else { 0 };
        assert(unsigned_part(s@, true) =~= s@.skip(from as int));
        match parse_digits(chars.as_slice(), from, 2147483647) {
            Some(n) => Some(n as i32),
            None => None,
        }
    }
}

// ----------------------------------------------------------------------- dictionary order

/// Whether `a` stands before `b` in the dictionary, or is `b`.
pub open spec fn precedes(a: Seq<char>, b: Seq<char>) -> bool
    decreases a.len(),
{
    if a.len() == 0 {
        true
    } else if b.len() == 0 {
        false
    } else if a[0] != b[0] {
        a[0] < b[0]
    } else {
        precedes(a.drop_first(), b.drop_first())
    }
}

/// Whether texts stand in dictionary order.
pub open spec fn in_order(s: Seq<Seq<char>>) -> bool {
    forall|i: int, j: int| 0 <= i < j < s.len() ==> precedes(#[trigger] s[i], #[trigger] s[j])
}

/// Of two texts one precedes the other.
pub proof fn lemma_precedes_total(a: Seq<char>, b: Seq<char>)
    ensures
        precedes(a, b) || precedes(b, a),
    decreases a.len(),
{
    if a.len() > 0 && b.len() > 0 && a[0] == b[0] {
        lemma_precedes_total(a.drop_first(), b.drop_first());
    }
}

/// What precedes a text precedes all that this text precedes.
pub proof fn lemma_precedes_chain(a: Seq<char>, b: Seq<char>, c: Seq<char>)
    requires
        precedes(a, b),
        precedes(b, c),
    ensures
        precedes(a, c),
    decreases a.len(),
{
    if a.len() > 0 && b.len() > 0 && c.len() > 0 && a[0] == b[0] && b[0] == c[0] {
        lemma_precedes_chain(a.drop_first(), b.drop_first(), c.drop_first());
    }
}

/// Whether `a` stands before `b` in the dictionary, or is `b`.
pub fn stands_before(a: &str, b: &str) -> (r: bool)
    ensures
        r == precedes(a@, b@),
{
    let x = chars_of(a);
    let y = chars_of(b);
    let n: usize = x.len();
    let m: usize = y.len();
    let mut i: usize = 0;
    assert(a@.skip(0) =~= a@);
    assert(b@.skip(0) =~= b@);
    while i < n && i < m && x[i] == y[i]
        invariant
            n == x@.len(),
            m == y@.len(),
            x@ == a@,
            y@ == b@,
            i <= n,
            i <= m,
            precedes(a@, b@) == precedes(a@.skip(i as int), b@.skip(i as int)),
        decreases n - i,
    {
        assert(a@.skip(i as int).drop_first() =~= a@.skip(i + 1));
        assert(b@.skip(i as int).drop_first() =~= b@.skip(i + 1));
        i = i + 1;
    }
    if i == n {
        true
    } else if i == m {
        false
    } else {
        let c: char = x[i];
        let d: char = y[i];
        assert(a@.skip(i as int)[0] == c && b@.skip(i as int)[0] == d);
        c < d
    }
}

// ----------------------------------------------------------------------- laws

/// Trimming takes white space off the two ends and nothing else: what is left stands in the text
/// between white space, and neither begins nor ends with any.
pub proof fn law_trimming_takes_white_ends(s: Seq<char>) -> (at: (int, int))
    ensures
        0 <= at.0 <= at.1 <= s.len(),
        trimmed(s) == s.subrange(at.0, at.1),
        forall|i: int| 0 <= i < at.0 || at.1 <= i < s.len() ==> is_white(#[trigger] s[i]),
        trimmed(s).len() > 0 ==> !is_white(trimmed(s)[0]) && !is_white(trimmed(s).last()),
{
    let a = lemma_trim_front(s);
    let t = trim_front(s);
    let n = lemma_trim_back(t);
    assert(t.take(n) =~= s.subrange(a, a + n));
    assert forall|i: int| 0 <= i < a || a + n <= i < s.len() implies is_white(#[trigger] s[i]) by {
        if i >= a + n {
            assert(t[i - a] == s[i]);
        }
    }
    if n > 0 {
        assert(t.take(n)[0] == t[0]);
    }
    (a, a + n)
}

proof fn lemma_trim_front(s: Seq<char>) -> (n: int)
    ensures
        0 <= n <= s.len(),
        trim_front(s) == s.skip(n),
        forall|i: int| 0 <= i < n ==> is_white(#[trigger] s[i]),
        n < s.len() ==> !is_white(s[n]),
    decreases s.len(),
{
    if s.len() > 0 && is_white(s[0]) {
        let n = lemma_trim_front(s.drop_first());
        assert(s.drop_first().skip(n) =~= s.skip(n + 1));
        assert forall|i: int| 0 <= i < n + 1 implies is_white(#[trigger] s[i]) by {
            if i > 0 {
                assert(s.drop_first()[i - 1] == s[i]);
            }
        }
        n + 1
    } else {
        assert(s.skip(0) =~= s);
        0
    }
}

proof fn lemma_trim_back(s: Seq<char>) -> (n: int)
    ensures
        0 <= n <= s.len(),
        trim_back(s) == s.take(n),
        forall|i: int| n <= i < s.len() ==> is_white(#[trigger] s[i]),
        n > 0 ==> !is_white(s[n - 1]),
    decreases s.len(),
{
    if s.len() > 0 && is_white(s.last()) {
        let t = s.drop_last();
        let n = lemma_trim_back(t);
        assert(t.take(n) =~= s.take(n));
        assert forall|i: int| n <= i < s.len() implies is_white(#[trigger] s[i]) by {
            if i < t.len() {
                assert(t[i] == s[i]);
            }
        }
        n
    } else {
        assert(s.take(s.len() as int) =~= s);
        s.len() as int
    }
}

/// A text in which nothing is to be replaced stays as it is; otherwise all before the first
/// occurrence stays, the occurrence is replaced, and replacing goes on behind it.
pub proof fn law_replacing(s: Seq<char>, p: Seq<char>, by: Seq<char>, i: int)
    requires
        p.len() > 0,
        0 <= i <= s.len(),
        forall|j: int| 0 <= j < i ==> !(#[trigger] occurs_at(s, p, j)),
    ensures
        occurs_at(s, p, i) ==> replaced(s, p, by) == s.take(i) + by + replaced(
            s.skip(i + p.len()),
            p,
            by,
        ),
        i == s.len() ==> replaced(s, p, by) == s,
    decreases i,
{
    if s.len() >= p.len() {
        assert(s.subrange(0, p.len() as int) =~= s.take(p.len() as int));
        assert(begins_with(s, p) <==> occurs_at(s, p, 0));
    }
    if i == 0 {
        if occurs_at(s, p, 0) {
            assert(s.take(0) + by + replaced(s.skip(i + p.len()), p, by) =~= by + replaced(
                s.skip(p.len() as int),
                p,
                by,
            ));
        }
        if s.len() == 0 {
            assert(replaced(s, p, by) =~= s);
        }
    } else {
        let t = s.drop_first();
        assert forall|j: int| 0 <= j < i - 1 implies !(#[trigger] occurs_at(t, p, j)) by {
            if occurs_at(t, p, j) {
                assert(t.subrange(j, j + p.len()) =~= s.subrange(j + 1, j + 1 + p.len()));
                assert(occurs_at(s, p, j + 1));
            }
        }
        assert(!occurs_at(s, p, 0));
        law_replacing(t, p, by, i - 1);
        if occurs_at(s, p, i) {
            assert(t.subrange(i - 1, i - 1 + p.len()) =~= s.subrange(i, i + p.len()));
            assert(occurs_at(t, p, i - 1));
            assert(t.skip(i - 1 + p.len()) =~= s.skip(i + p.len()));
            assert(replaced(s, p, by) =~= s.take(i) + by + replaced(s.skip(i + p.len()), p, by));
        }
        if i == s.len() {
            if s.len() >= p.len() {
                assert(seq![s[0]] + t =~= s);
            }
        }
    }
}

/// Texts are joined with the separator between each two of them: one text alone stays as it is, and
/// two lists joined are the two with the separator between them.
pub proof fn law_joining(a: Seq<Seq<char>>, b: Seq<Seq<char>>, s: Seq<char>, sep: Seq<char>)
    ensures
        joined(Seq::empty(), sep) == Seq::<char>::empty(),
        joined(seq![s], sep) == s,
        a.len() > 0 && b.len() > 0 ==> joined(a + b, sep) == joined(a, sep) + sep + joined(b, sep),
    decreases b.len(),
{
    reveal_with_fuel(joined, 2);
    assert(seq![s].drop_last() =~= Seq::empty());
    assert(joined(seq![s], sep) =~= s);
    if a.len() > 0 && b.len() > 0 {
        let c = b.drop_last();
        assert((a + b).drop_last() =~= a + c);
        assert((a + b).last() == b.last());
        if c.len() > 0 {
            law_joining(a, c, s, sep);
            assert(joined(a + b, sep) =~= joined(a, sep) + sep + joined(b, sep));
        } else {
            assert(a + c =~= a);
            assert(b =~= seq![b.last()]);
            assert(joined(a + b, sep) =~= joined(a, sep) + sep + joined(b, sep));
        }
    }
}

/// A number is written in its decimal digits, without a zero before them, and what is written is read
/// back as that number, with a sign or without.
pub proof fn law_decimals_are_read_back(n: nat, max: nat)
    ensures
        all_digits(decimal(n)),
        decimal(n).len() > 0,
        digits_value(decimal(n)) == n,
        n > 0 ==> decimal(n)[0] != '0',
        n <= max ==> parsed_nat(decimal(n), max) == Some(n),
        n <= max ==> parsed_nat(seq!['+'] + decimal(n), max) == Some(n),
        n > max ==> parsed_nat(decimal(n), max) is None,
        n <= i32::MAX ==> parsed_i32(decimal(n)) == Some(n as int),
        n <= i32::MAX + 1 ==> parsed_i32(seq!['-'] + decimal(n)) == Some(-(n as int)),
        n > i32::MAX ==> parsed_i32(decimal(n)) is None,
{
    lemma_decimal(n);
    lemma_leading_digit(n);
    let d = decimal(n);
    assert(is_digit(d[0]));
    assert((seq!['+'] + d).drop_first() =~= d);
    assert((seq!['-'] + d).drop_first() =~= d);
}

proof fn lemma_leading_digit(n: nat)
    ensures
        n > 0 ==> decimal(n)[0] != '0',
    decreases n,
{
    if n >= 10 {
        lemma_leading_digit(n / 10);
        lemma_decimal(n / 10);
        assert(decimal(n)[0] == decimal(n / 10)[0]);
    }
}

/// Only a sign and digits are a number: a text with anything else in it, or without digits, is none,
/// and an unsigned number has no minus sign.
pub proof fn law_only_digits_are_numbers(s: Seq<char>, max: nat, i: int)
    ensures
        s.len() == 0 ==> parsed_nat(s, max) is None && parsed_i32(s) is None,
        0 < i < s.len() && !is_digit(s[i]) ==> parsed_nat(s, max) is None && parsed_i32(s) is None,
        s.len() > 0 && !is_digit(s[0]) && s[0] != '+' ==> parsed_nat(s, max) is None,
        s.len() > 0 && !is_digit(s[0]) && s[0] != '+' && s[0] != '-' ==> parsed_i32(s) is None,
        s.len() == 1 && !is_digit(s[0]) ==> parsed_nat(s, max) is None && parsed_i32(s) is None,
{
    if 0 < i < s.len() && !is_digit(s[i]) {
        assert(s.drop_first()[i - 1] == s[i]);
    }
    if s.len() == 1 {
        assert(s.drop_first().len() == 0);
    }
}

/// A text is what stands before a character, the character, and what stands behind it.
pub proof fn law_split_at_a_character(s: Seq<char>, c: char)
    ensures
        s.contains(c) ==> s == before_char(s, c) + seq![c] + after_char(s, c),
        !s.contains(c) ==> before_char(s, c) == s && after_char(s, c).len() == 0,
        !before_char(s, c).contains(c),
{
    lemma_find_char(s, c);
    let n = find_char(s, c) as int;
    if n < s.len() {
        assert(s.contains(s[n]));
        assert(s =~= before_char(s, c) + seq![c] + after_char(s, c));
    } else {
        assert(s.take(n) =~= s);
    }
    if s.contains(c) && n == s.len() {
        let i = choose|i: int| 0 <= i < s.len() && s[i] == c;
        assert(s[i] != c);
    }
    if before_char(s, c).contains(c) {
        let i = choose|i: int| 0 <= i < n && s.take(n)[i] == c;
        assert(s[i] == c);
    }
}

/// Texts are in dictionary order: at the first place where two differ the smaller character decides,
/// and a text stands before whatever it begins.
pub proof fn law_dictionary_order(a: Seq<char>, b: Seq<char>, n: int)
    requires
        0 <= n <= a.len(),
        n <= b.len(),
        a.take(n) == b.take(n),
    ensures
        n < a.len() && n < b.len() && a[n] != b[n] ==> (precedes(a, b) <==> a[n] < b[n]),
        n == a.len() ==> precedes(a, b),
        n == b.len() && n < a.len() ==> !precedes(a, b),
        precedes(a, b) && precedes(b, a) ==> a == b,
    decreases a.len(),
{
    lemma_precedes_both(a, b);
    if n > 0 {
        assert(a.take(n)[0] == a[0] && b.take(n)[0] == b[0]);
        let x = a.drop_first();
        let y = b.drop_first();
        assert(x.take(n - 1) =~= a.take(n).drop_first());
        assert(y.take(n - 1) =~= b.take(n).drop_first());
        law_dictionary_order(x, y, n - 1);
    }
}

proof fn lemma_precedes_both(a: Seq<char>, b: Seq<char>)
    ensures
        precedes(a, b) && precedes(b, a) ==> a == b,
    decreases a.len(),
{
    if a.len() > 0 && b.len() > 0 && a[0] == b[0] {
        lemma_precedes_both(a.drop_first(), b.drop_first());
        if a.drop_first() == b.drop_first() {
            assert(a =~= seq![a[0]] + a.drop_first());
            assert(b =~= seq![b[0]] + b.drop_first());
        }
    } else if a.len() == 0 && b.len() == 0 {
        assert(a =~= b);
    }
}

/// White space is the blanks, tabs and line ends of Unicode.
pub proof fn law_white_space(c: char)
    ensures
        is_white(c) <==> (c == ' ' || c == '\t' || c == '\n' || c == '\u{b}' || c == '\u{c}' || c
            == '\r' || c == '\u{85}' || c == '\u{a0}' || c == '\u{1680}' || ('\u{2000}' <= c && c
            <= '\u{200a}') || c == '\u{2028}' || c == '\u{2029}' || c == '\u{202f}' || c
            == '\u{205f}' || c == '\u{3000}'),
{
}

} // verus!
