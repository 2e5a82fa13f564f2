//! The shortest decimal digits of a floating-point number, as Python chooses them.
//!
//! Rust's `{:e}` finds the right number of digits but breaks ties upwards (`…094.25` becomes
//! `…094.3` where Python writes `…094.2`). So the digits are rounded again from the exact decimal
//! expansion, half to even, and the result is kept when it still reads back as the same number.

use vstd::prelude::*;
use vstd::string::*;

use crate::json::Decimal;
use crate::pyjson::{decimal_repr, finite_repr, number_literal, zeros};
use crate::text::{
    after_char, all_digits, before_char, chars_of, decimal, decimal_text, digit_char, digits_value,
    find_char, is_digit, law_decimals_are_read_back, lemma_find_char_unique, parse_i32, parsed_i32,
    position, string_of,
};

verus! {

// ----------------------------------------------------------------------- definitions

/// Ten to the `n`.
pub open spec fn pow10(n: nat) -> nat
    decreases n,
{
    if n == 0 {
        1
    } else {
        10 * pow10((n - 1) as nat)
    }
}

/// `n` decimal digits of `v`, with leading zeros.
pub open spec fn padded(v: nat, n: nat) -> Seq<char>
    decreases n,
{
    if n == 0 {
        Seq::empty()
    } else {
        padded(v / 10, (n - 1) as nat).push(digit_char(v % 10))
    }
}

/// `s` without the zeros at its end.
pub open spec fn without_trailing_zeros(s: Seq<char>) -> Seq<char>
    decreases s.len(),
{
    if s.len() > 0 && s.last() == '0' {
        without_trailing_zeros(s.drop_last())
    } else {
        s
    }
}

/// `s` without its points.
pub open spec fn without_points(s: Seq<char>) -> Seq<char>
    decreases s.len(),
{
    if s.len() == 0 {
        Seq::empty()
    } else if s.last() == '.' {
        without_points(s.drop_last())
    } else {
        without_points(s.drop_last()).push(s.last())
    }
}

/// Whether `s` is a mantissa, an `e` and an integer exponent, as `{:e}` writes a number.
pub open spec fn is_scientific(s: Seq<char>) -> bool {
    find_char(s, 'e') < s.len() && parsed_i32(after_char(s, 'e')) is Some
}

/// The significant digits of `d.ddde±x` notation.
pub open spec fn mantissa_digits(s: Seq<char>) -> Seq<char> {
    without_points(before_char(s, 'e'))
}

/// The decimal exponent of `d.ddde±x` notation.
pub open spec fn sci_exponent(s: Seq<char>) -> int {
    parsed_i32(after_char(s, 'e'))->0
}

/// The first `n` of the digits `exact`, as a number, rounded by the digits after them: to the
/// nearest, and from the middle to the even one.
pub open spec fn rounded_head(exact: Seq<char>, n: nat) -> nat {
    let head = digits_value(exact.take(n as int));
    let rest = digits_value(exact.skip(n as int));
    let whole = pow10((exact.len() - n) as nat);
    if 2 * rest > whole || (2 * rest == whole && head % 2 == 1) {
        head + 1
    } else {
        head
    }
}

/// The `n` digits nearest to `exact` times ten to the `exp`, and their exponent. Trailing zeros
/// are dropped.
pub open spec fn nearest(exact: Seq<char>, exp: int, n: nat) -> (Seq<char>, int) {
    let v = rounded_head(exact, n);
    let (digits, exp) = if v == pow10(n) {
        (padded(v / 10, n), exp + 1)
    } else {
        (padded(v, n), exp)
    };
    let short = without_trailing_zeros(digits);
    (
        if short.len() == 0 {
            seq!['0']
        } else {
            short
        },
        exp,
    )
}

/// `d.ddd0e±x`, the spelling in which digits are read back.
pub open spec fn spelled(digits: Seq<char>, exp: int) -> Seq<char> {
    let size: Seq<char> = if exp < 0 {
        seq!['-'] + decimal((-exp) as nat)
    } else {
        decimal(exp as nat)
    };
    digits.take(1) + seq!['.'] + digits.skip(1) + seq!['0', 'e'] + size
}

// ----------------------------------------------------------------------- lemmas

proof fn lemma_pow10_positive(n: nat)
    ensures
        pow10(n) > 0,
    decreases n,
{
    if n > 0 {
        lemma_pow10_positive((n - 1) as nat);
    }
}

proof fn lemma_value_of_push(s: Seq<char>, c: char)
    requires
        is_digit(c),
    ensures
        digits_value(s.push(c)) == 10 * digits_value(s) + (c as int - 48),
{
    assert(s.push(c).drop_last() =~= s);
}

/// Digits after digits.
pub proof fn lemma_value_of_concat(a: Seq<char>, b: Seq<char>)
    requires
        all_digits(b),
    ensures
        digits_value(a + b) == digits_value(a) * pow10(b.len()) + digits_value(b),
    decreases b.len(),
{
    if b.len() == 0 {
        assert(a + b =~= a);
        assert(digits_value(a) * 1 == digits_value(a)) by (nonlinear_arith);
    } else {
        let c = b.drop_last();
        lemma_value_of_concat(a, c);
        assert((a + b).drop_last() =~= a + c);
        assert((a + b).last() == b.last());
        assert(is_digit(b.last()));
        let x = digits_value(a) as int;
        let p = pow10(c.len()) as int;
        let v = digits_value(c) as int;
        let d = b.last() as int - 48;
        assert(pow10(b.len()) == 10 * p);
        assert(digits_value(a + b) == digits_value(a + c) * 10 + d);
        assert((x * p + v) * 10 + d == x * (10 * p) + (v * 10 + d)) by (nonlinear_arith);
    }
}

proof fn lemma_value_below(s: Seq<char>)
    requires
        all_digits(s),
    ensures
        digits_value(s) < pow10(s.len()),
    decreases s.len(),
{
    if s.len() > 0 {
        lemma_value_below(s.drop_last());
        assert(is_digit(s.last()));
    }
}

pub proof fn lemma_value_of_zeros(n: nat)
    ensures
        all_digits(zeros(n)),
        digits_value(zeros(n)) == 0,
    decreases n,
{
    if n > 0 {
        lemma_value_of_zeros((n - 1) as nat);
        assert(zeros(n).drop_last() =~= zeros((n - 1) as nat));
    }
}

/// Digits write down zero exactly when all of them are zero.
proof fn lemma_value_zero(s: Seq<char>)
    requires
        all_digits(s),
    ensures
        digits_value(s) == 0 <==> (forall|i: int| 0 <= i < s.len() ==> #[trigger] s[i] == '0'),
    decreases s.len(),
{
    if s.len() > 0 {
        let t = s.drop_last();
        lemma_value_zero(t);
        assert(is_digit(s.last()));
        if digits_value(s) == 0 {
            assert(digits_value(t) == 0);
            assert(s.last() as int == 48);
            assert(s.last() == '0');
            assert forall|i: int| 0 <= i < s.len() implies #[trigger] s[i] == '0' by {
                if i < t.len() {
                    assert(t[i] == s[i]);
                }
            }
        }
        if forall|i: int| 0 <= i < s.len() ==> #[trigger] s[i] == '0' {
            assert forall|i: int| 0 <= i < t.len() implies #[trigger] t[i] == '0' by {
                assert(s[i] == '0');
            }
            assert(s[s.len() - 1] == '0');
        }
    }
}

/// Nines are one short of the next power of ten.
proof fn lemma_value_of_nines(s: Seq<char>)
    requires
        forall|i: int| 0 <= i < s.len() ==> #[trigger] s[i] == '9',
    ensures
        all_digits(s),
        digits_value(s) + 1 == pow10(s.len()),
    decreases s.len(),
{
    if s.len() > 0 {
        let t = s.drop_last();
        assert forall|i: int| 0 <= i < t.len() implies #[trigger] t[i] == '9' by {
            assert(s[i] == '9');
        }
        lemma_value_of_nines(t);
        assert(s[s.len() - 1] == '9');
    }
}

/// Digits are the padded decimal of the number they write down.
proof fn lemma_padded(s: Seq<char>)
    requires
        all_digits(s),
    ensures
        padded(digits_value(s), s.len()) == s,
    decreases s.len(),
{
    if s.len() > 0 {
        let t = s.drop_last();
        lemma_padded(t);
        let d = s.last() as int - 48;
        assert(is_digit(s.last()));
        let v = digits_value(s);
        assert(v / 10 == digits_value(t));
        assert(v % 10 == d);
        assert(digit_char(v % 10) == s.last());
        assert(s =~= t.push(s.last()));
    }
}

/// The middle is told from the first digit, and at a five from whether anything follows it.
proof fn lemma_middle(rest: Seq<char>)
    requires
        all_digits(rest),
        rest.len() > 0,
    ensures
        ({
            let tail = rest.skip(1);
            let twice = 2 * digits_value(rest);
            let whole = pow10(rest.len());
            &&& rest[0] as int > 53 ==> twice > whole
            &&& rest[0] as int == 53 ==> (twice > whole <==> digits_value(tail) > 0) && (twice
                == whole <==> digits_value(tail) == 0)
            &&& (rest[0] as int) < 53 ==> twice < whole
        }),
{
    let first = rest.take(1);
    let tail = rest.skip(1);
    assert(rest =~= first + tail);
    assert(is_digit(rest[0]));
    assert(all_digits(tail));
    lemma_value_of_concat(first, tail);
    lemma_value_below(tail);
    assert(first.drop_last() =~= Seq::empty());
    assert(digits_value(first) == rest[0] as int - 48) by {
        assert(digits_value(first.drop_last()) == 0);
    }
    let d = rest[0] as int - 48;
    let p = pow10(tail.len()) as int;
    assert(digits_value(rest) == d * p + digits_value(tail));
    assert(pow10(rest.len()) == 10 * p);
    if d > 5 {
        assert(d * p >= 6 * p) by (nonlinear_arith)
            requires
                d >= 6,
                p > 0,
        ;
    } else if d == 5 {
        assert(d * p == 5 * p);
    } else {
        assert(d * p <= 4 * p) by (nonlinear_arith)
            requires
                d <= 4,
                p > 0,
        ;
    }
}

/// A number is as odd as its last digit.
proof fn lemma_parity(s: Seq<char>)
    requires
        s.len() > 0,
        all_digits(s),
    ensures
        digits_value(s) % 2 == (s.last() as int - 48) % 2,
{
    assert(is_digit(s.last()));
    assert(digits_value(s) == 10 * digits_value(s.drop_last()) + (s.last() as int - 48));
}

/// What rounds the first `n` digits up, read off the digits.
proof fn lemma_rounded_head(all: Seq<char>, n: int)
    requires
        all_digits(all),
        1 <= n < all.len(),
    ensures
        ({
            let head = digits_value(all.take(n));
            let more = exists|j: int| n < j < all.len() && all[j] != '0';
            let up = all[n] > '5' || (all[n] == '5' && (more || (all[n - 1] as int - 48) % 2 == 1));
            rounded_head(all, n as nat) == if up {
                head + 1
            } else {
                head
            }
        }),
{
    let kept = all.take(n);
    let rest = all.skip(n);
    let tail = rest.skip(1);
    assert(all_digits(kept));
    assert(all_digits(rest));
    assert(all_digits(tail));
    lemma_parity(kept);
    lemma_middle(rest);
    lemma_value_zero(tail);
    assert(is_digit(all[n]));
    let more = exists|j: int| n < j < all.len() && all[j] != '0';
    if more {
        let j = choose|j: int| n < j < all.len() && all[j] != '0';
        assert(tail[j - n - 1] != '0');
    } else {
        assert forall|k: int| 0 <= k < tail.len() implies #[trigger] tail[k] == '0' by {
            assert(tail[k] == all[n + 1 + k]);
        }
    }
}

// ----------------------------------------------------------------------- operations

fn drop_points(chars: &[char]) -> (r: Vec<char>)
    ensures
        r@ == without_points(chars@),
{
    let mut out: Vec<char> = Vec::new();
    for i in 0..chars.len()
        invariant
            out@ == without_points(chars@.take(i as int)),
    {
        let ghost next = chars@.take(i + 1);
        assert(next.drop_last() =~= chars@.take(i as int));
        assert(next.last() == chars@[i as int]);
        if chars[i] != '.' {
            out.push(chars[i]);
        }
    }
    assert(chars@.take(chars@.len() as int) =~= chars@);
    out
}

/// Significant digits and decimal exponent of `d.ddde±x` notation.
pub fn sci_parts(sci: &str) -> (r: (String, i32))
    requires
        is_scientific(sci@),
    ensures
        r.0@ == mantissa_digits(sci@),
        r.1 == sci_exponent(sci@),
{
    let chars = chars_of(sci);
    let cut: usize = position(chars.as_slice(), 'e');
    let mut mantissa: Vec<char> = Vec::new();
    for i in 0..cut
        invariant
            cut <= chars@.len(),
            mantissa@ == chars@.take(i as int),
    {
        mantissa.push(chars[i]);
    }
    let mut rest: Vec<char> = Vec::new();
    for i in cut + 1..chars.len()
        invariant
            cut < chars@.len(),
            rest@ == chars@.subrange(cut + 1, i as int),
    {
        rest.push(chars[i]);
    }
    assert(rest@ =~= after_char(sci@, 'e'));
    let exp = parse_i32(string_of(rest.as_slice()).as_str());
    let digits = drop_points(mantissa.as_slice());
    match exp {
        Some(e) => (string_of(digits.as_slice()), e),
        None => (string_of(digits.as_slice()), 0),
    }
}

/// Adds one to a run of digits; a run of nines becomes zeros and is reported.
fn increment(digits: &mut Vec<char>) -> (carry: bool)
    requires
        all_digits(old(digits)@),
    ensures
        final(digits)@.len() == old(digits)@.len(),
        all_digits(final(digits)@),
        carry ==> digits_value(old(digits)@) + 1 == pow10(old(digits)@.len()),
        carry ==> final(digits)@ == zeros(old(digits)@.len()),
        !carry ==> digits_value(final(digits)@) == digits_value(old(digits)@) + 1,
{
    let ghost was = digits@;
    let n: usize = digits.len();
    let mut i: usize = n;
    assert(zeros(0) =~= Seq::empty());
    assert(digits@ =~= was.take(n as int) + zeros(0));
    while i > 0 && digits[i - 1] == '9'
        invariant
            i <= n,
            n == was.len(),
            all_digits(was),
            digits@ == was.take(i as int) + zeros((n - i) as nat),
            forall|j: int| i <= j < n ==> was[j] == '9',
        decreases i,
    {
        assert(digits@[i - 1] == was[i - 1]);
        digits.set(i - 1, '0');
        i -= 1;
        assert(digits@ =~= was.take(i as int) + zeros((n - i) as nat));
    }
    let ghost tail = was.skip(i as int);
    proof {
        assert forall|j: int| 0 <= j < tail.len() implies #[trigger] tail[j] == '9' by {
            assert(was[i + j] == '9');
        }
        lemma_value_of_nines(tail);
        lemma_value_of_zeros((n - i) as nat);
        assert(was =~= was.take(i as int) + tail);
        lemma_value_of_concat(was.take(i as int), tail);
    }
    if i == 0 {
        assert(digits@ =~= zeros(n as nat));
        assert(tail =~= was);
        return true;
    }
    let ghost head = was.take(i - 1);
    let c: u32 = digits[i - 1] as u32;
    assert(is_digit(was[i - 1]));
    assert(digits@[i - 1] == was[i - 1]);
    assert(was[i - 1] != '9');
    assert(48 <= c < 57);
    let up: char = (c as u8 + 1) as char;
    digits.set(i - 1, up);
    proof {
        assert(is_digit(up));
        assert(digits@ =~= head.push(up) + zeros((n - i) as nat));
        assert(was.take(i as int) =~= head.push(was[i - 1]));
        lemma_value_of_push(head, was[i - 1]);
        lemma_value_of_push(head, up);
        lemma_value_of_concat(head.push(up), zeros((n - i) as nat));
        let a = digits_value(head.push(was[i - 1])) as int;
        let p = pow10((n - i) as nat) as int;
        assert((a + 1) * p == a * p + p) by (nonlinear_arith);
        assert forall|j: int| 0 <= j < digits@.len() implies is_digit(#[trigger] digits@[j]) by {
            if j < i - 1 {
                assert(digits@[j] == was[j]);
            }
        }
    }
    false
}

fn strip_zeros(digits: &mut Vec<char>)
    ensures
        final(digits)@ == without_trailing_zeros(old(digits)@),
{
    while digits.len() > 0 && digits[digits.len() - 1] == '0'
        invariant
            without_trailing_zeros(digits@) == without_trailing_zeros(old(digits)@),
        decreases digits@.len(),
    {
        digits.pop();
    }
}

/// Whether the digits after the first `n` round those up.
fn rounds_up(all: &[char], n: usize) -> (up: bool)
    requires
        all_digits(all@),
        1 <= n <= all@.len(),
    ensures
        rounded_head(all@, n as nat) == digits_value(all@.take(n as int)) + (if up {
            1int
        } else {
            0int
        }),
{
    if n == all.len() {
        assert(all@.skip(n as int) =~= Seq::empty());
        return false;
    }
    proof {
        lemma_rounded_head(all@, n as int);
    }
    let first: char = all[n];
    if first != '5' {
        return first > '5';
    }
    let mut more: bool = false;
    for i in n + 1..all.len()
        invariant
            n < all@.len(),
            more == (exists|j: int| n < j < i && all@[j] != '0'),
    {
        if all[i] != '0' {
            more = true;
        }
    }
    let last: char = all[n - 1];
    assert(is_digit(all@[n - 1]));
    more || (last as u32 - 48) % 2 == 1
}

/// A one and `n` zeros are the digits of a power of ten.
proof fn lemma_value_of_power(n: nat)
    ensures
        all_digits(seq!['1'] + zeros(n)),
        digits_value(seq!['1'] + zeros(n)) == pow10(n),
{
    lemma_value_of_zeros(n);
    lemma_value_of_concat(seq!['1'], zeros(n));
    assert(seq!['1'].drop_last() =~= Seq::empty());
    assert(digits_value(seq!['1'].drop_last()) == 0);
    assert(digits_value(seq!['1']) == 1);
    assert(1 * pow10(n) == pow10(n)) by (nonlinear_arith);
}

/// The `n` digits nearest to `exact` times ten to the `exp`, ties to even, without trailing
/// zeros.
pub fn nearest_digits(exact: &str, exp: i32, n: usize) -> (r: (String, i32))
    requires
        all_digits(exact@),
        1 <= n <= exact@.len(),
        exp < i32::MAX,
    ensures
        (r.0@, r.1 as int) == nearest(exact@, exp as int, n as nat),
{
    let all = chars_of(exact);
    let mut head: Vec<char> = Vec::new();
    for i in 0..n
        invariant
            n <= all@.len(),
            head@ == all@.take(i as int),
    {
        head.push(all[i]);
    }
    let ghost kept = head@;
    assert(all_digits(kept));
    let up = rounds_up(all.as_slice(), n);
    let ghost v = rounded_head(exact@, n as nat);
    let mut e: i32 = exp;
    if up {
        let carry = increment(&mut head);
        if carry {
            head.set(0, '1');
            e = exp + 1;
            proof {
                assert(head@ =~= seq!['1'] + zeros((n - 1) as nat));
                lemma_value_of_power((n - 1) as nat);
                assert(pow10(n as nat) == 10 * pow10((n - 1) as nat));
                lemma_padded(head@);
                assert(v == pow10(n as nat));
            }
        } else {
            proof {
                lemma_value_below(head@);
                lemma_padded(head@);
            }
        }
    } else {
        proof {
            lemma_value_below(kept);
            lemma_padded(kept);
        }
    }
    assert(head@ == padded(if v == pow10(n as nat) { v / 10 } else { v }, n as nat));
    strip_zeros(&mut head);
    if head.len() == 0 {
        head.push('0');
        assert(head@ =~= seq!['0']);
    }
    (string_of(head.as_slice()), e)
}

/// `d.ddd0e±x`, to be read back as a number.
pub fn spell(digits: &str, exp: i32) -> (r: String)
    requires
        digits@.len() > 0,
    ensures
        r@ == spelled(digits@, exp as int),
{
    let chars = chars_of(digits);
    let mut out: String = String::new();
    out.push(chars[0]);
    out.push('.');
    for i in 1..chars.len()
        invariant
            chars@.len() > 0,
            out@ == chars@.take(1) + seq!['.'] + chars@.subrange(1, i as int),
    {
        out.push(chars[i]);
        assert(out@ =~= chars@.take(1) + seq!['.'] + chars@.subrange(1, i + 1));
    }
    out.push('0');
    out.push('e');
    if exp < 0 {
        out.push('-');
        out.append(decimal_text((0 - exp as i64) as u64).as_str());
    } else {
        out.append(decimal_text(exp as u64).as_str());
    }
    assert(out@ =~= spelled(digits@, exp as int));
    out
}

/// The shortest digits of a number, as far as its printed forms settle them.
pub enum Shortest {
    /// These digits and this exponent.
    Settled(String, i32),
    /// `nearest` if `text` reads back as the number, else `printed`. At a power of two the digits
    /// that round to the number lie to one side of it, so the nearest ones need not be among them.
    Check { text: String, nearest: (String, i32), printed: (String, i32) },
}

/// The shortest digits of a number `v >= 0`, from how `{:e}` and `{:.767e}` print it. The second
/// is exact: no double has more significant digits.
pub fn shortest_digits(sci: &str, exact: &str) -> (r: Shortest)
    requires
        is_scientific(sci@),
        is_scientific(exact@),
        all_digits(mantissa_digits(sci@)),
        all_digits(mantissa_digits(exact@)),
        1 <= mantissa_digits(sci@).len() <= mantissa_digits(exact@).len(),
        sci_exponent(exact@) < i32::MAX,
    ensures
        ({
            let printed = (mantissa_digits(sci@), sci_exponent(sci@));
            let best = nearest(mantissa_digits(exact@), sci_exponent(exact@), printed.0.len());
            match r {
                Shortest::Settled(d, e) => digits_value(printed.0) == 0 && (d@, e as int)
                    == printed,
                Shortest::Check { text, nearest, printed: p } => digits_value(printed.0) > 0
                    && text@ == spelled(best.0, best.1) && (nearest.0@, nearest.1 as int) == best
                    && (p.0@, p.1 as int) == printed,
            }
        }),
{
    let (digits, exp) = sci_parts(sci);
    let chars = chars_of(digits.as_str());
    let mut zero: bool = true;
    for i in 0..chars.len()
        invariant
            zero == (forall|j: int| 0 <= j < i ==> #[trigger] chars@[j] == '0'),
    {
        if chars[i] != '0' {
            zero = false;
        }
    }
    proof {
        lemma_value_zero(digits@);
    }
    if zero {
        return Shortest::Settled(digits, exp);
    }
    let n: usize = chars.len();
    let (all, all_exp) = sci_parts(exact);
    let best = nearest_digits(all.as_str(), all_exp, n);
    let text = spell(best.0.as_str(), best.1);
    Shortest::Check { text, nearest: best, printed: (digits, exp) }
}

impl Shortest {
    /// The digits, given whether `text` reads back as the number.
    pub fn settle(self, reads_back: bool) -> (r: (String, i32))
        ensures
            match self {
                Shortest::Settled(d, e) => r == (d, e),
                Shortest::Check { text, nearest, printed } => r == if reads_back {
                    nearest
                } else {
                    printed
                },
            },
    {
        match self {
            Shortest::Settled(d, e) => (d, e),
            Shortest::Check { text: _, nearest, printed } => if reads_back {
                nearest
            } else {
                printed
            },
        }
    }
}

/// A floating-point number, as text sees it.
pub enum Real {
    NotANumber,
    Infinity { negative: bool },
    Finite(Decimal),
}

/// Python's `repr` of a floating-point number.
pub open spec fn repr(v: Real) -> Seq<char> {
    match v {
        Real::NotANumber => seq!['N', 'a', 'N'],
        Real::Infinity { negative } => if negative {
            seq!['-', 'I', 'n', 'f', 'i', 'n', 'i', 't', 'y']
        } else {
            seq!['I', 'n', 'f', 'i', 'n', 'i', 't', 'y']
        },
        Real::Finite(d) => finite_repr(d.negative, d.digits@, d.exponent as int),
    }
}

/// Python's `repr(float)`: the shortest digits that round-trip, in fixed notation for decimal
/// exponents from -4 to 15 and in `1e-05` / `1.5e+16` notation outside it.
pub fn float_repr(value: &Real) -> (r: String)
    ensures
        r@ == repr(*value),
{
    match value {
        Real::NotANumber => {
            proof {
                reveal_strlit("NaN");
            }
            let r = "NaN".to_owned();
            assert(r@ =~= repr(*value));
            r
        },
        Real::Infinity { negative } => {
            proof {
                reveal_strlit("-Infinity");
                reveal_strlit("Infinity");
            }
            let r = if *negative {
                "-Infinity".to_owned()
            } else {
                "Infinity".to_owned()
            };
            assert(r@ =~= repr(*value));
            r
        },
        Real::Finite(d) => decimal_repr(d),
    }
}

// ----------------------------------------------------------------------- laws

/// The rounded digits are nearest: no other number of `n` digits lies closer to the exact value,
/// and from the middle the even one is taken. The exact value is
/// `digits_value(exact) / pow10(exact.len() - n)`.
pub proof fn law_rounded_head_is_nearest(exact: Seq<char>, n: nat, other: nat)
    requires
        all_digits(exact),
        1 <= n <= exact.len(),
    ensures
        ({
            let scale = pow10((exact.len() - n) as nat);
            let value = digits_value(exact);
            let best = rounded_head(exact, n) * scale - value;
            let rival = other * scale - value;
            &&& (if best < 0 { -best } else { best }) <= (if rival < 0 { -rival } else { rival })
            &&& best == rival || best == -rival ==> other == rounded_head(exact, n)
                || rounded_head(exact, n) % 2 == 0
        }),
{
    let scale = pow10((exact.len() - n) as nat) as int;
    let head = exact.take(n as int);
    let rest = exact.skip(n as int);
    assert(exact =~= head + rest);
    lemma_value_of_concat(head, rest);
    lemma_value_below(rest);
    lemma_pow10_positive(rest.len());
    let h = digits_value(head) as int;
    let r = digits_value(rest) as int;
    let v = rounded_head(exact, n) as int;
    let o = other as int;
    assert(digits_value(exact) == h * scale + r);
    assert(v * scale - (h * scale + r) == (v - h) * scale - r) by (nonlinear_arith);
    assert(o * scale - (h * scale + r) == (o - h) * scale - r) by (nonlinear_arith);
    assert((v - h) * scale == if v == h { 0 } else { scale }) by (nonlinear_arith)
        requires
            v == h || v == h + 1,
    ;
    if o <= h - 1 {
        assert((o - h) * scale <= -scale) by (nonlinear_arith)
            requires
                o - h <= -1,
                scale > 0,
        ;
    } else if o == h {
        assert((o - h) * scale == 0) by (nonlinear_arith)
            requires
                o == h,
        ;
    } else if o == h + 1 {
        assert((o - h) * scale == scale) by (nonlinear_arith)
            requires
                o == h + 1,
        ;
    } else {
        assert((o - h) * scale >= 2 * scale) by (nonlinear_arith)
            requires
                o - h >= 2,
                scale > 0,
        ;
    }
}

/// A number in scientific notation is taken apart into its digits, without the point, and its exponent,
/// whatever their sizes.
pub proof fn law_parts_of_scientific_notation(a: Seq<char>, b: Seq<char>, n: nat)
    requires
        all_digits(a),
        all_digits(b),
        n <= i32::MAX,
    ensures
        ({
            let plain = a + seq!['.'] + b + seq!['e'] + decimal(n);
            let minus = a + seq!['.'] + b + seq!['e', '-'] + decimal(n);
            &&& is_scientific(plain) && mantissa_digits(plain) == a + b && sci_exponent(plain) == n
            &&& is_scientific(minus) && mantissa_digits(minus) == a + b && sci_exponent(minus) == -n
        }),
{
    let m = a + seq!['.'] + b;
    let d = decimal(n);
    assert(a + seq!['.'] + b + seq!['e'] + d =~= m + seq!['e'] + d);
    assert(a + seq!['.'] + b + seq!['e', '-'] + d =~= m + seq!['e'] + (seq!['-'] + d));
    assert forall|j: int| 0 <= j < m.len() implies m[j] != 'e' by {
        if j < a.len() {
            assert(is_digit(a[j]));
        } else if j > a.len() {
            assert(is_digit(b[j - a.len() - 1]));
        }
    }
    lemma_split_at_e(m, d);
    lemma_split_at_e(m, seq!['-'] + d);
    law_decimals_are_read_back(n, i32::MAX as nat);
    lemma_without_points(a, b);
}

proof fn lemma_split_at_e(m: Seq<char>, rest: Seq<char>)
    requires
        forall|j: int| 0 <= j < m.len() ==> m[j] != 'e',
    ensures
        find_char(m + seq!['e'] + rest, 'e') == m.len(),
        before_char(m + seq!['e'] + rest, 'e') == m,
        after_char(m + seq!['e'] + rest, 'e') == rest,
{
    let s = m + seq!['e'] + rest;
    lemma_find_char_unique(s, 'e', m.len() as int);
    assert(s.take(m.len() as int) =~= m);
    assert(s.skip(m.len() as int + 1) =~= rest);
}

proof fn lemma_without_points(a: Seq<char>, b: Seq<char>)
    requires
        all_digits(a),
        all_digits(b),
    ensures
        without_points(a + seq!['.'] + b) == a + b,
    decreases b.len(),
{
    let s = a + seq!['.'] + b;
    if b.len() == 0 {
        assert(s.drop_last() =~= a);
        lemma_no_points(a);
        assert(a + b =~= a);
    } else {
        let c = b.drop_last();
        assert(is_digit(b[b.len() - 1]));
        assert forall|i: int| 0 <= i < c.len() implies is_digit(#[trigger] c[i]) by {
            assert(c[i] == b[i]);
        }
        lemma_without_points(a, c);
        assert(s.drop_last() =~= a + seq!['.'] + c);
        assert((a + c).push(b.last()) =~= a + b);
    }
}

proof fn lemma_no_points(a: Seq<char>)
    requires
        all_digits(a),
    ensures
        without_points(a) == a,
    decreases a.len(),
{
    if a.len() > 0 {
        let t = a.drop_last();
        assert(is_digit(a[a.len() - 1]));
        assert forall|i: int| 0 <= i < t.len() implies is_digit(#[trigger] t[i]) by {
            assert(t[i] == a[i]);
        }
        lemma_no_points(t);
        assert(t.push(a.last()) =~= a);
    } else {
        assert(a =~= Seq::empty());
    }
}

/// A number that is spelled reads back as its digits, with a zero behind them, and its exponent.
pub proof fn law_spelling_reads_back(digits: Seq<char>, exp: int)
    requires
        digits.len() > 0,
        all_digits(digits),
        i32::MIN < exp <= i32::MAX,
    ensures
        is_scientific(spelled(digits, exp)),
        mantissa_digits(spelled(digits, exp)) == digits + seq!['0'],
        sci_exponent(spelled(digits, exp)) == exp,
{
    let a = digits.take(1);
    let b = digits.skip(1) + seq!['0'];
    let n = (if exp < 0 {
        -exp
    } else {
        exp
    }) as nat;
    law_parts_of_scientific_notation(a, b, n);
    assert(a + b =~= digits + seq!['0']);
    if exp < 0 {
        assert(spelled(digits, exp) =~= a + seq!['.'] + b + seq!['e', '-'] + decimal(n));
    } else {
        assert(spelled(digits, exp) =~= a + seq!['.'] + b + seq!['e'] + decimal(n));
    }
}

proof fn lemma_value_of_padded(v: nat, n: nat)
    requires
        v < pow10(n),
    ensures
        padded(v, n).len() == n,
        all_digits(padded(v, n)),
        digits_value(padded(v, n)) == v,
    decreases n,
{
    if n > 0 {
        lemma_value_of_padded(v / 10, (n - 1) as nat);
        assert(padded(v, n).drop_last() =~= padded(v / 10, (n - 1) as nat));
    }
}

proof fn lemma_without_zeros(s: Seq<char>)
    requires
        all_digits(s),
    ensures
        without_trailing_zeros(s).len() <= s.len(),
        all_digits(without_trailing_zeros(s)),
        digits_value(without_trailing_zeros(s)) * pow10(
            (s.len() - without_trailing_zeros(s).len()) as nat,
        ) == digits_value(s),
        without_trailing_zeros(s).len() > 0 ==> without_trailing_zeros(s).last() != '0',
        without_trailing_zeros(s).len() == 0 ==> digits_value(s) == 0,
    decreases s.len(),
{
    if s.len() > 0 && s.last() == '0' {
        let t = s.drop_last();
        assert forall|i: int| 0 <= i < t.len() implies is_digit(#[trigger] t[i]) by {
            assert(t[i] == s[i]);
        }
        lemma_without_zeros(t);
        let w = without_trailing_zeros(t);
        let k = (t.len() - w.len()) as nat;
        let v = digits_value(w);
        let p = pow10(k);
        assert(v * (10 * p) == 10 * (v * p)) by (nonlinear_arith);
    } else {
        let v = digits_value(s);
        assert(v * 1 == v) by (nonlinear_arith);
    }
}

/// The digits that are found keep the value of the rounded ones: they are those, without the zeros at
/// their end, and where rounding carried past the first digit the exponent is one more.
pub proof fn law_found_digits_keep_their_value(exact: Seq<char>, exp: int, n: nat)
    requires
        all_digits(exact),
        1 <= n <= exact.len(),
    ensures
        ({
            let (digits, e) = nearest(exact, exp, n);
            &&& 0 < digits.len() <= n && all_digits(digits)
            &&& digits.last() != '0' || digits == seq!['0']
            &&& e == exp || e == exp + 1
            &&& digits_value(digits) * pow10((n - digits.len()) as nat) * (if e == exp { 1nat } else {
                10
            }) == rounded_head(exact, n)
        }),
{
    let v = rounded_head(exact, n);
    let head = exact.take(n as int);
    lemma_value_below(head);
    lemma_pow10_positive((n - 1) as nat);
    let carried = v == pow10(n);
    let shown = if carried {
        v / 10
    } else {
        v
    };
    assert(pow10(n) == 10 * pow10((n - 1) as nat));
    assert(shown < pow10(n));
    assert(v == shown * (if carried { 10nat } else { 1 }));
    lemma_value_of_padded(shown, n);
    let all = padded(shown, n);
    lemma_without_zeros(all);
    let short = without_trailing_zeros(all);
    let k = (n - short.len()) as nat;
    if short.len() == 0 {
        assert(digits_value(seq!['0']) == 0) by {
            assert(seq!['0'].drop_last() =~= Seq::empty());
            reveal_with_fuel(digits_value, 2);
        }
        let p = pow10((n - 1) as nat);
        assert(0 * p == 0) by (nonlinear_arith);
    } else {
        let a = digits_value(short) * pow10(k);
        assert(a * 1 == a && a * 10 == 10 * a) by (nonlinear_arith);
    }
}

/// What is no finite number is written in words, and a finite one like any other.
pub proof fn law_words_for_what_is_not_finite(d: Decimal)
    ensures
        repr(Real::NotANumber) == "NaN"@,
        repr(Real::Infinity { negative: false }) == "Infinity"@,
        repr(Real::Infinity { negative: true }) == "-Infinity"@,
        repr(Real::Finite(d)) == number_literal(d@),
{
    reveal_strlit("NaN");
    reveal_strlit("Infinity");
    reveal_strlit("-Infinity");
    assert("NaN"@ =~= repr(Real::NotANumber));
    assert("Infinity"@ =~= repr(Real::Infinity { negative: false }));
    assert("-Infinity"@ =~= repr(Real::Infinity { negative: true }));
}

/// A caller is given the nearest digits where they read back as the number, and otherwise those that were
/// printed.
pub proof fn law_given_digits(
    text: String,
    nearest: (String, i32),
    printed: (String, i32),
    r: (String, i32),
    reads_back: bool,
)
    requires
        call_ensures(
            Shortest::settle,
            (Shortest::Check { text, nearest, printed }, reads_back),
            r,
        ),
    ensures
        reads_back ==> r == nearest,
        !reads_back ==> r == printed,
{
}

} // verus!
