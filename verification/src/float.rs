//! Single-precision numbers, held by their bits.
//!
//! Confidences, temperatures and fractions are single-precision floating point. They are carried
//! here as IEEE 754 bit patterns: compared by their bits, and, where a fraction is computed,
//! rounded to 24 significant bits with ties to even, as the hardware rounds.

use vstd::arithmetic::power2::{
    lemma_pow2_adds, lemma_pow2_pos, lemma_pow2_strictly_increases, pow2,
};
use vstd::prelude::*;

verus! {

// ----------------------------------------------------------------------- bit patterns

/// A single-precision number, by its IEEE 754 bits.
#[derive(Clone, Copy, Debug, PartialEq, Eq, Structural)]
pub struct Float {
    pub bits: u32,
}

/// The biased exponent.
pub open spec fn exponent_field(f: Float) -> nat {
    ((f.bits / 0x80_0000) % 256) as nat
}

/// Whether the number is neither infinite nor a NaN.
pub open spec fn finite(f: Float) -> bool {
    exponent_field(f) != 255
}

/// Whether this is not a number.
pub open spec fn not_a_number(f: Float) -> bool {
    exponent_field(f) == 255 && f.bits % 0x80_0000 != 0
}

/// A number that orders as the floating-point numbers do, NaNs aside; both zeros are 0.
pub open spec fn rank(f: Float) -> int {
    if f.bits < 0x8000_0000 {
        f.bits as int
    } else {
        0x8000_0000 - f.bits
    }
}

/// Whether `a < b`. Nothing is less than a NaN, nor a NaN less than anything.
pub open spec fn less(a: Float, b: Float) -> bool {
    !not_a_number(a) && !not_a_number(b) && rank(a) < rank(b)
}

impl Float {
    /// The number with these bits.
    pub fn from_bits(bits: u32) -> (r: Float)
        ensures
            r == (Float { bits }),
    {
        Float { bits }
    }

    /// The bits of this number.
    pub fn to_bits(self) -> (r: u32)
        ensures
            r == self.bits,
    {
        self.bits
    }

    /// Whether this is neither infinite nor a NaN.
    pub fn is_finite(self) -> (r: bool)
        ensures
            r == finite(self),
    {
        (self.bits / 0x80_0000) % 256 != 255
    }

    /// Whether this is not a number.
    pub fn is_nan(self) -> (r: bool)
        ensures
            r == not_a_number(self),
    {
        (self.bits / 0x80_0000) % 256 == 255 && self.bits % 0x80_0000 != 0
    }

    /// Whether this is less than `other`.
    pub fn less_than(self, other: Float) -> (r: bool)
        ensures
            r == less(self, other),
    {
        if self.is_nan() || other.is_nan() {
            return false;
        }
        let a: i64 = if self.bits < 0x8000_0000 {
            self.bits as i64
        } else {
            0x8000_0000 - self.bits as i64
        };
        let b: i64 = if other.bits < 0x8000_0000 {
            other.bits as i64
        } else {
            0x8000_0000 - other.bits as i64
        };
        a < b
    }
}

// ----------------------------------------------------------------------- rounding

/// A non-negative dyadic number, `m` over two to the `s`, with 24 significant bits; zero is
/// `0 / 1`.
#[derive(Clone, Copy, Debug)]
pub struct Dyadic {
    pub m: u32,
    pub s: u32,
}

/// The mathematical content of a [`Dyadic`].
pub struct Fraction {
    pub m: nat,
    pub s: nat,
}

impl View for Dyadic {
    type V = Fraction;

    open spec fn view(&self) -> Fraction {
        Fraction { m: self.m as nat, s: self.s as nat }
    }
}

/// `num / den`, doubled until it has 24 bits before the point, over the same `den`.
pub open spec fn raised(num: nat, den: nat) -> nat
    decreases (if num >= 0x80_0000 * den { 0 } else { 0x80_0000 * den - num }),
{
    if num == 0 || num >= 0x80_0000 * den {
        num
    } else {
        raised(2 * num, den)
    }
}

/// How often `num / den` doubles until it has 24 bits before the point.
pub open spec fn doublings(num: nat, den: nat) -> nat
    decreases (if num >= 0x80_0000 * den { 0 } else { 0x80_0000 * den - num }),
{
    if num == 0 || num >= 0x80_0000 * den {
        0
    } else {
        1 + doublings(2 * num, den)
    }
}

/// The whole number nearest to `num / den`, ties to even.
pub open spec fn nearest_whole(num: nat, den: nat) -> nat {
    let q = num / den;
    let r = num % den;
    if 2 * r > den || (2 * r == den && q % 2 == 1) {
        q + 1
    } else {
        q
    }
}

/// `num / den`, below two to the 23rd, rounded to 24 significant bits with ties to even.
pub open spec fn rounded(num: nat, den: nat) -> Fraction {
    let s = doublings(num, den);
    let m = nearest_whole(raised(num, den), den);
    if num == 0 {
        Fraction { m: 0, s: 0 }
    } else if m == 0x100_0000 {
        Fraction { m: 0x80_0000nat, s: (s - 1) as nat }
    } else {
        Fraction { m, s }
    }
}

/// Whether a fraction has the form that [`rounded`] gives it.
pub open spec fn normal(f: Fraction) -> bool {
    (f.m == 0 && f.s == 0) || 0x80_0000 <= f.m < 0x100_0000
}

/// The unit in which `n` has at most 24 bits.
pub open spec fn unit_of(n: nat, u: nat) -> nat
    decreases (if n < 0x100_0000 * u { 0 } else { n - 0x100_0000 * u + 1 }),
{
    if u == 0 || n < 0x100_0000 * u {
        u
    } else {
        unit_of(n, 2 * u)
    }
}

/// A count as a single-precision number.
pub open spec fn as_count(n: nat) -> nat {
    nearest_whole(n, unit_of(n, 1)) * unit_of(n, 1)
}

/// `n / d` for two counts.
pub open spec fn quotient(n: nat, d: nat) -> Fraction {
    rounded(as_count(n), as_count(d))
}

/// `1 - f`.
pub open spec fn complement(f: Fraction) -> Fraction {
    rounded((pow2(f.s) - f.m) as nat, pow2(f.s))
}

/// `f` times `k`.
pub open spec fn times(f: Fraction, k: nat) -> Fraction {
    rounded(f.m * k, pow2(f.s))
}

/// The whole number nearest to `f`, ties away from zero.
pub open spec fn half_up(f: Fraction) -> nat {
    (2 * f.m + pow2(f.s)) / (2 * pow2(f.s))
}

/// `f` rounded to four decimals.
pub open spec fn four_decimals(f: Fraction) -> Fraction {
    rounded(half_up(times(f, 10000)), 10000)
}

/// `f` in percent, to the nearest whole, ties to even.
pub open spec fn percent_of(f: Fraction) -> nat {
    nearest_whole(times(f, 100).m, pow2(times(f, 100).s))
}

/// The bits of a fraction.
pub open spec fn bits_of(f: Fraction) -> int {
    if f.m == 0 {
        0
    } else {
        (150 - f.s) * 0x80_0000 + f.m - 0x80_0000
    }
}

/// The non-negative fraction that has these bits.
pub open spec fn fraction_of(f: Float) -> Fraction {
    if f.bits == 0 {
        Fraction { m: 0, s: 0 }
    } else {
        Fraction {
            m: (f.bits as int % 0x80_0000int + 0x80_0000) as nat,
            s: (150 - f.bits as int / 0x80_0000int) as nat,
        }
    }
}

/// A fraction survives being written to bits.
pub proof fn lemma_bits_round_trip(f: Fraction)
    requires
        normal(f),
        f.s < 150,
    ensures
        0 <= bits_of(f) <= u32::MAX,
        fraction_of(Float { bits: bits_of(f) as u32 }) == f,
{
    if f.m != 0 {
        let b = bits_of(f);
        assert(b == (150 - f.s) * 0x80_0000 + (f.m - 0x80_0000));
        assert(b / 0x80_0000 == 150 - f.s);
        assert(b % 0x80_0000 == f.m - 0x80_0000);
    }
}

proof fn lemma_div_bounds(x: nat, d: nat, lo: nat)
    requires
        d > 0,
        lo * d <= x < 2 * lo * d,
    ensures
        lo <= x / d < 2 * lo,
        0 <= x % d < d,
{
    let q = x / d;
    let r = x % d;
    assert(x == d * q + r) by {
        vstd::arithmetic::div_mod::lemma_fundamental_div_mod(x as int, d as int);
    }
    assert(r < d) by {
        vstd::arithmetic::div_mod::lemma_mod_bound(x as int, d as int);
    }
    assert(q >= lo) by (nonlinear_arith)
        requires
            x == d * q + r,
            r < d,
            lo * d <= x,
            d > 0,
    ;
    assert(q < 2 * lo) by (nonlinear_arith)
        requires
            x == d * q + r,
            x < 2 * lo * d,
            d > 0,
    ;
}

fn to_nearest_whole(num: u128, den: u128) -> (r: u128)
    requires
        0 < den <= u128::MAX / 2,
        num < u128::MAX,
    ensures
        r == nearest_whole(num as nat, den as nat),
{
    let q: u128 = num / den;
    let r: u128 = num % den;
    proof {
        vstd::arithmetic::div_mod::lemma_mod_bound(num as int, den as int);
        vstd::arithmetic::div_mod::lemma_div_is_ordered_by_denominator(num as int, 1, den as int);
    }
    if 2 * r > den || (2 * r == den && q % 2 == 1) {
        q + 1
    } else {
        q
    }
}

/// `num / den`, rounded to 24 significant bits with ties to even.
pub fn nearest(num: u128, den: u128) -> (r: Dyadic)
    requires
        0 < den <= pow2(100),
        num <= 1_000_000 * den,
    ensures
        r@ == rounded(num as nat, den as nat),
        normal(r@),
        num > 0 ==> pow2(r.s as nat) * num < 0x100_0000 * den,
        r.s <= 124,
{
    proof {
        lemma_pow2_hundred();
    }
    if num == 0 {
        return Dyadic { m: 0, s: 0 };
    }
    let mut x: u128 = num;
    let mut s: u32 = 0;
    let top: u128 = 0x80_0000 * den;
    proof {
        lemma_pow2_pos(0);
        vstd::arithmetic::power2::lemma2_to64();
        assert(pow2(0) * num == num) by (nonlinear_arith)
            requires
                pow2(0) == 1,
        ;
    }
    while x < top
        invariant
            top == 0x80_0000 * den,
            0 < den <= pow2(100),
            pow2(100) == 0x10_0000_0000_0000_0000_0000_0000,
            0 < num <= 1_000_000 * den,
            num <= x < 2 * top,
            x == pow2(s as nat) * num,
            pow2(s as nat) <= x,
            s <= 124,
            x < top ==> s < 124,
            raised(num as nat, den as nat) == raised(x as nat, den as nat),
            doublings(num as nat, den as nat) == s + doublings(x as nat, den as nat),
        decreases (if x < top { top - x } else { 0 }),
    {
        proof {
            vstd::arithmetic::power2::lemma_pow2_unfold((s + 1) as nat);
            let p = pow2(s as nat) as int;
            let n = num as int;
            assert(2 * p * n == 2 * (p * n)) by (nonlinear_arith);
            assert(2 * p <= 2 * p * n) by (nonlinear_arith)
                requires
                    n >= 1,
                    p >= 0,
            ;
        }
        x = 2 * x;
        s = s + 1;
        proof {
            if x < top && s >= 124 {
                lemma_pow2_hundred_and_more();
                assert(false);
            }
        }
    }
    proof {
        lemma_div_bounds(x as nat, den as nat, 0x80_0000nat);
        assert(s > 0);
    }
    let m: u128 = to_nearest_whole(x, den);
    if m == 0x100_0000 {
        proof {
            vstd::arithmetic::power2::lemma_pow2_unfold(s as nat);
            let p = pow2((s - 1) as nat) as int;
            let n = num as int;
            assert(p * n <= 2 * p * n) by (nonlinear_arith)
                requires
                    n >= 1,
                    p >= 0,
            ;
        }
        Dyadic { m: 0x80_0000, s: s - 1 }
    } else {
        Dyadic { m: m as u32, s }
    }
}

/// `f`, written to its bits.
pub fn encode(f: Dyadic) -> (r: Float)
    requires
        normal(f@),
        f.s < 150,
    ensures
        r.bits == bits_of(f@),
        fraction_of(r) == f@,
        f.s <= 90 && at_most_one(f@) ==> is_share(r),
{
    proof {
        lemma_bits_round_trip(f@);
    }
    if f.m == 0 {
        Float { bits: 0 }
    } else {
        Float { bits: (150 - f.s) * 0x80_0000 + (f.m - 0x80_0000) }
    }
}

/// The unit of a count keeps 24 bits of it.
proof fn lemma_unit(n: nat, u: nat)
    requires
        u > 0,
        u == 1 || 0x80_0000 * u <= n,
    ensures
        unit_of(n, u) > 0,
        n < 0x100_0000 * unit_of(n, u),
        unit_of(n, u) == 1 || 0x80_0000 * unit_of(n, u) <= n,
    decreases (if n < 0x100_0000 * u { 0 } else { n - 0x100_0000 * u + 1 }),
{
    if n >= 0x100_0000 * u {
        lemma_unit(n, 2 * u);
    }
}

/// A count is off by no more than half of itself when it is rounded.
proof fn lemma_as_count(n: nat)
    ensures
        as_count(n) <= 2 * n,
        n <= 2 * as_count(n),
        n > 0 ==> as_count(n) > 0,
{
    lemma_unit(n, 1);
    let u = unit_of(n, 1);
    let q = n / u;
    let r = n % u;
    vstd::arithmetic::div_mod::lemma_fundamental_div_mod(n as int, u as int);
    vstd::arithmetic::div_mod::lemma_mod_bound(n as int, u as int);
    assert(q * u == n - r) by (nonlinear_arith)
        requires
            n == u * q + r,
    ;
    assert((q + 1) * u == q * u + u) by (nonlinear_arith);
    if u == 1 {
        assert(r == 0);
    }
}

/// A count as a single-precision number.
fn to_count(n: usize) -> (r: u128)
    ensures
        r == as_count(n as nat),
        r <= 2 * n,
        n <= 2 * r,
        n > 0 ==> r > 0,
{
    let wide: u128 = n as u128;
    let mut u: u128 = 1;
    while wide >= 0x100_0000 * u
        invariant
            wide == n,
            n <= u64::MAX,
            0 < u <= u64::MAX,
            unit_of(n as nat, u as nat) == unit_of(n as nat, 1),
        decreases (if wide < 0x100_0000 * u { 0 } else { wide - 0x100_0000 * u + 1 }),
    {
        u = 2 * u;
    }
    proof {
        lemma_as_count(n as nat);
    }
    let whole: u128 = to_nearest_whole(wide, u);
    whole * u
}

/// `n / d` for two counts, as single-precision division gives it.
pub fn divide(n: usize, d: usize) -> (r: Dyadic)
    requires
        n <= d,
        d > 0,
    ensures
        r@ == quotient(n as nat, d as nat),
        normal(r@),
        r.s <= 90,
{
    let num: u128 = to_count(n);
    let den: u128 = to_count(d);
    proof {
        lemma_pow2_hundred();
    }
    let r = nearest(num, den);
    proof {
        if num > 0 && r.s > 90 {
            vstd::arithmetic::power2::lemma2_to64();
            vstd::arithmetic::power2::lemma2_to64_rest();
            lemma_pow2_adds(45, 45);
            lemma_pow2_strictly_increases(90, r.s as nat);
            let p = pow2(r.s as nat) as int;
            let h = pow2(45) as int;
            assert(h * h == 0x400_0000_0000_0000_0000_0000) by (nonlinear_arith)
                requires
                    h == 0x2000_0000_0000,
            ;
            assert(pow2(90) == 0x400_0000_0000_0000_0000_0000);
            assert(p * num >= p) by (nonlinear_arith)
                requires
                    num >= 1,
                    p >= 0,
            ;
            assert(false);
        }
    }
    r
}

/// Two to the `s`.
fn power(s: u32) -> (r: u128)
    requires
        s <= 124,
    ensures
        r == pow2(s as nat),
        r > 0,
{
    proof {
        vstd::arithmetic::power2::lemma2_to64();
        lemma_pow2_hundred_and_more();
    }
    let mut r: u128 = 1;
    for i in 0..s
        invariant
            s <= 124,
            pow2(124) == 0x1000_0000_0000_0000_0000_0000_0000_0000,
            r == pow2(i as nat),
            r > 0,
    {
        proof {
            vstd::arithmetic::power2::lemma_pow2_unfold((i + 1) as nat);
            if i + 1 < 124 {
                lemma_pow2_strictly_increases((i + 1) as nat, 124);
            }
        }
        r = 2 * r;
    }
    r
}

/// Rounding does not pass a whole number.
proof fn lemma_rounded_bound(num: nat, den: nat, k: nat)
    requires
        den > 0,
        num <= k * den,
        k <= 1_000_000,
    ensures
        rounded(num, den).m <= k * pow2(rounded(num, den).s),
{
    lemma_pow2_pos(0);
    if num > 0 {
        lemma_raised(num, den);
        let s = doublings(num, den);
        let x = raised(num, den);
        let p = pow2(s);
        let q = x / den;
        let r = x % den;
        vstd::arithmetic::div_mod::lemma_fundamental_div_mod(x as int, den as int);
        vstd::arithmetic::div_mod::lemma_mod_bound(x as int, den as int);
        let most = (k * p) as int;
        assert(x <= most * den) by (nonlinear_arith)
            requires
                x == p * num,
                num <= k * den,
                most == k * p,
                p >= 0,
        ;
        assert(q <= most && (q == most ==> r == 0)) by (nonlinear_arith)
            requires
                x == den * q + r,
                x <= most * den,
                r >= 0,
                den > 0,
        ;
        let m = nearest_whole(x, den);
        assert(m <= most);
        if m == 0x100_0000 {
            assert(s > 0) by {
                if s == 0 {
                    vstd::arithmetic::power2::lemma2_to64();
                    assert(k * p == k) by (nonlinear_arith)
                        requires
                            p == 1,
                    ;
                }
            }
            vstd::arithmetic::power2::lemma_pow2_unfold(s);
            let half = pow2((s - 1) as nat);
            assert(k * p == 2 * (k * half)) by (nonlinear_arith)
                requires
                    p == 2 * half,
            ;
        }
    }
}

/// What doubling does.
proof fn lemma_raised(num: nat, den: nat)
    ensures
        raised(num, den) == pow2(doublings(num, den)) * num,
    decreases (if num >= 0x80_0000 * den { 0 } else { 0x80_0000 * den - num }),
{
    if num == 0 || num >= 0x80_0000 * den {
        vstd::arithmetic::power2::lemma2_to64();
        assert(1 * num == num) by (nonlinear_arith);
    } else {
        lemma_raised(2 * num, den);
        let s = doublings(2 * num, den);
        vstd::arithmetic::power2::lemma_pow2_unfold(s + 1);
        assert(pow2(s) * (2 * num) == (2 * pow2(s)) * num) by (nonlinear_arith);
    }
}

/// Whether a fraction is at most one.
pub open spec fn at_most_one(f: Fraction) -> bool {
    f.m <= pow2(f.s)
}

/// Units only ever double.
proof fn lemma_units(n: nat, d: nat, u: nat)
    requires
        n <= d,
        u > 0,
    ensures
        unit_of(n, u) >= u,
        unit_of(n, u) == unit_of(d, u) || 2 * unit_of(n, u) <= unit_of(d, u),
    decreases (if d < 0x100_0000 * u { 0 } else { d - 0x100_0000 * u + 1 }),
{
    if d >= 0x100_0000 * u {
        if n >= 0x100_0000 * u {
            lemma_units(n, d, 2 * u);
        } else {
            lemma_units(d, d, 2 * u);
        }
    }
}

/// Rounding keeps the order of counts.
proof fn lemma_count_grows(n: nat, d: nat)
    requires
        n <= d,
    ensures
        as_count(n) <= as_count(d),
{
    lemma_units(n, d, 1);
    lemma_unit(n, 1);
    lemma_unit(d, 1);
    let u = unit_of(n, 1) as int;
    let v = unit_of(d, 1) as int;
    let q = n as int / u;
    let r = n as int % u;
    let p = d as int / v;
    let t = d as int % v;
    vstd::arithmetic::div_mod::lemma_fundamental_div_mod(n as int, u);
    vstd::arithmetic::div_mod::lemma_mod_bound(n as int, u);
    vstd::arithmetic::div_mod::lemma_fundamental_div_mod(d as int, v);
    vstd::arithmetic::div_mod::lemma_mod_bound(d as int, v);
    let a = nearest_whole(n, u as nat) as int;
    let b = nearest_whole(d, v as nat) as int;
    if u == v {
        assert(q < p || (q == p && r <= t)) by (nonlinear_arith)
            requires
                n == u * q + r,
                d == u * p + t,
                n <= d,
                0 <= r < u,
                0 <= t < u,
        ;
        assert(a <= b);
        assert(a * u <= b * u) by (nonlinear_arith)
            requires
                a <= b,
                u > 0,
        ;
    } else {
        assert(q < 0x100_0000) by (nonlinear_arith)
            requires
                n == u * q + r,
                0 <= r,
                n < 0x100_0000 * u,
                u > 0,
        ;
        assert(p >= 0x80_0000) by (nonlinear_arith)
            requires
                d == v * p + t,
                t < v,
                0x80_0000 * v <= d,
                v > 0,
        ;
        assert(a * u <= 0x100_0000 * u) by (nonlinear_arith)
            requires
                a <= 0x100_0000,
                u > 0,
        ;
        assert(b * v >= 0x80_0000 * v) by (nonlinear_arith)
            requires
                b >= 0x80_0000,
                v > 0,
        ;
    }
}

/// A part of a whole is at most one.
pub proof fn lemma_quotient_at_most_one(n: nat, d: nat)
    requires
        n <= d,
        d > 0,
    ensures
        at_most_one(quotient(n, d)),
{
    lemma_count_grows(n, d);
    lemma_as_count(d);
    let num = as_count(n);
    let den = as_count(d);
    assert(1 * den == den) by (nonlinear_arith);
    lemma_rounded_bound(num, den, 1);
    let p = pow2(rounded(num, den).s);
    assert(1 * p == p) by (nonlinear_arith);
}

/// `1 - f`, as single-precision subtraction gives it.
pub fn subtract_from_one(f: Dyadic) -> (r: Dyadic)
    requires
        normal(f@),
        f.s <= 90,
        at_most_one(f@),
    ensures
        r@ == complement(f@),
        normal(r@),
        at_most_one(r@),
        r.s <= 48,
{
    let whole: u128 = power(f.s);
    let num: u128 = whole - f.m as u128;
    proof {
        lemma_pow2_hundred();
        lemma_pow2_strictly_increases(f.s as nat, 100);
        assert(1 * whole == whole) by (nonlinear_arith);
        lemma_rounded_bound(num as nat, whole as nat, 1);
        let p = pow2(complement(f@).s);
        assert(1 * p == p) by (nonlinear_arith);
    }
    let r = nearest(num, whole);
    proof {
        if r.s > 48 && num > 0 {
            vstd::arithmetic::power2::lemma2_to64();
            vstd::arithmetic::power2::lemma2_to64_rest();
            lemma_pow2_strictly_increases(48, r.s as nat);
            let p = pow2(r.s as nat) as int;
            if f.s <= 24 {
                if f.s < 24 {
                    lemma_pow2_strictly_increases(f.s as nat, 24);
                }
                assert(p * num >= p) by (nonlinear_arith)
                    requires
                        num >= 1,
                        p >= 0,
                ;
            } else {
                if f.s > 25 {
                    lemma_pow2_strictly_increases(25, f.s as nat);
                }
                assert(2 * num >= whole);
                assert(p * num >= 0x1_0000_0000_0000 * num) by (nonlinear_arith)
                    requires
                        p >= 0x1_0000_0000_0000,
                        num >= 0,
                ;
            }
            assert(false);
        }
    }
    r
}

/// `f` times `k`, as single-precision multiplication gives it.
fn multiply(f: Dyadic, k: u32) -> (r: Dyadic)
    requires
        normal(f@),
        f.s <= 90,
        at_most_one(f@),
        k <= 10000,
    ensures
        r@ == times(f@, k as nat),
        r.m <= k * pow2(r.s as nat),
        r.s <= 124,
{
    let whole: u128 = power(f.s);
    assert(f.m as u128 * k as u128 <= 0xffff_ffff * 10000) by (nonlinear_arith)
        requires
            f.m <= 0xffff_ffff,
            k <= 10000,
    ;
    let num: u128 = f.m as u128 * k as u128;
    proof {
        lemma_pow2_hundred();
        lemma_pow2_strictly_increases(f.s as nat, 100);
        assert(num <= k * whole) by (nonlinear_arith)
            requires
                num == f.m * k,
                f.m <= whole,
        ;
        assert(k * whole <= 10000 * whole) by (nonlinear_arith)
            requires
                k <= 10000,
                whole >= 0,
        ;
        lemma_rounded_bound(num as nat, whole as nat, k as nat);
    }
    nearest(num, whole)
}

/// `f` rounded to four decimals, ties away from zero.
pub fn round4(f: Dyadic) -> (r: Dyadic)
    requires
        normal(f@),
        f.s <= 90,
        at_most_one(f@),
    ensures
        r@ == four_decimals(f@),
        normal(r@),
        at_most_one(r@),
        r.s <= 40,
{
    let a = multiply(f, 10000);
    let whole: u128 = power(a.s);
    proof {
        lemma_pow2_hundred_and_more();
        if a.s < 124 {
            lemma_pow2_strictly_increases(a.s as nat, 124);
        }
    }
    let tenths: u128 = (2 * a.m as u128 + whole) / (2 * whole);
    proof {
        lemma_half_up_bound(a.m as nat, whole as nat, 10000);
        assert(1 * 10000 == 10000);
        lemma_rounded_bound(tenths as nat, 10000, 1);
        let p = pow2(four_decimals(f@).s);
        assert(1 * p == p) by (nonlinear_arith);
        lemma_pow2_hundred();
    }
    let r = nearest(tenths, 10000);
    proof {
        if r.s > 40 && tenths > 0 {
            vstd::arithmetic::power2::lemma2_to64();
            vstd::arithmetic::power2::lemma2_to64_rest();
            lemma_pow2_strictly_increases(40, r.s as nat);
            let p = pow2(r.s as nat) as int;
            assert(p * tenths >= p) by (nonlinear_arith)
                requires
                    tenths >= 1,
                    p >= 0,
            ;
            assert(false);
        }
    }
    r
}

proof fn lemma_half_up_bound(m: nat, whole: nat, k: nat)
    requires
        whole > 0,
        m <= k * whole,
    ensures
        (2 * m + whole) / (2 * whole) <= k,
{
    let n = (2 * m + whole) as int;
    let d = (2 * whole) as int;
    vstd::arithmetic::div_mod::lemma_fundamental_div_mod(n, d);
    vstd::arithmetic::div_mod::lemma_mod_bound(n, d);
    let q = n / d;
    let r = n % d;
    assert(q <= k) by (nonlinear_arith)
        requires
            n == d * q + r,
            r >= 0,
            d == 2 * whole,
            n <= 2 * (k * whole) + whole,
            whole > 0,
    ;
}

/// The fraction with these bits.
fn decode(f: Float) -> (r: Dyadic)
    requires
        f.bits < 151 * 0x80_0000,
    ensures
        r@ == fraction_of(f),
        normal(r@),
{
    if f.bits == 0 {
        Dyadic { m: 0, s: 0 }
    } else {
        Dyadic { m: f.bits % 0x80_0000 + 0x80_0000, s: 150 - f.bits / 0x80_0000 }
    }
}

/// Whether `f` is between zero and one, and zero or not vanishingly small.
pub open spec fn is_share(f: Float) -> bool {
    &&& f.bits < 151 * 0x80_0000
    &&& fraction_of(f).s <= 90
    &&& at_most_one(fraction_of(f))
}

/// The fraction that `f` is, if it is a share.
pub fn open_share(f: Float) -> (r: Option<Dyadic>)
    ensures
        match r {
            Some(d) => is_share(f) && d@ == fraction_of(f) && normal(d@) && d.s <= 90,
            None => !is_share(f),
        },
{
    if f.bits >= 151 * 0x80_0000 {
        return None;
    }
    let d = decode(f);
    if d.s > 90 {
        return None;
    }
    if d.m as u128 <= power(d.s) {
        Some(d)
    } else {
        None
    }
}

/// Zero is a share.
pub proof fn lemma_zero_is_share()
    ensures
        is_share(Float { bits: 0 }),
{
    lemma_pow2_pos(0);
}

/// `f` in percent, to the nearest whole, ties to even.
pub fn percent(f: Float) -> (r: u32)
    requires
        is_share(f),
    ensures
        r == percent_of(fraction_of(f)),
        r <= 100,
{
    let a = multiply(decode(f), 100);
    let whole: u128 = power(a.s);
    proof {
        lemma_pow2_hundred_and_more();
        if a.s < 124 {
            lemma_pow2_strictly_increases(a.s as nat, 124);
        }
        let x = a.m as int;
        let d = whole as int;
        vstd::arithmetic::div_mod::lemma_fundamental_div_mod(x, d);
        vstd::arithmetic::div_mod::lemma_mod_bound(x, d);
        let q = x / d;
        let r = x % d;
        assert(q <= 100 && (q == 100 ==> r == 0)) by (nonlinear_arith)
            requires
                x == d * q + r,
                x <= 100 * d,
                r >= 0,
                d > 0,
        ;
    }
    to_nearest_whole(a.m as u128, whole) as u32
}

proof fn lemma_pow2_hundred()
    ensures
        pow2(100) == 0x10_0000_0000_0000_0000_0000_0000,
{
    vstd::arithmetic::power2::lemma2_to64();
    vstd::arithmetic::power2::lemma2_to64_rest();
    lemma_pow2_adds(50, 50);
    let p = pow2(50) as int;
    assert(p * p == 0x10_0000_0000_0000_0000_0000_0000) by (nonlinear_arith)
        requires
            p == 0x4_0000_0000_0000,
    ;
}

proof fn lemma_pow2_hundred_and_more()
    ensures
        pow2(124) == 0x1000_0000_0000_0000_0000_0000_0000_0000,
{
    vstd::arithmetic::power2::lemma2_to64();
    vstd::arithmetic::power2::lemma2_to64_rest();
    lemma_pow2_adds(62, 62);
    let p = pow2(62) as int;
    assert(p * p == 0x1000_0000_0000_0000_0000_0000_0000_0000) by (nonlinear_arith)
        requires
            p == 0x4000_0000_0000_0000,
    ;
}

// ----------------------------------------------------------------------- laws

/// Which bit patterns are numbers: all but the infinities and what is beyond them are finite, and a
/// NaN is what is beyond an infinity.
pub proof fn law_what_is_a_number(f: Float)
    ensures
        finite(f) <==> f.bits < 0x7f80_0000 || 0x8000_0000 <= f.bits < 0xff80_0000,
        not_a_number(f) <==> 0x7f80_0000 < f.bits < 0x8000_0000 || f.bits > 0xff80_0000,
{
    let b = f.bits as int;
    assert(f.bits / 0x80_0000 == b / 0x80_0000);
    assert(b / 0x80_0000 < 512);
}

/// Numbers are ordered by sign and then by size: of two positive ones the one with the larger bits is
/// larger, of two negative ones it is smaller, a negative one is below a positive one unless both are
/// zero, and a NaN is neither below nor above anything.
pub proof fn law_order(a: Float, b: Float)
    ensures
        not_a_number(a) || not_a_number(b) ==> !less(a, b) && !less(b, a),
        !not_a_number(a) && !not_a_number(b) ==> {
            &&& a.bits < 0x8000_0000 && b.bits < 0x8000_0000 ==> (less(a, b) <==> a.bits < b.bits)
            &&& a.bits >= 0x8000_0000 && b.bits >= 0x8000_0000 ==> (less(a, b) <==> a.bits > b.bits)
            &&& a.bits >= 0x8000_0000 && b.bits < 0x8000_0000 ==> (less(a, b) <==> !(a.bits
                == 0x8000_0000 && b.bits == 0))
            &&& a.bits < 0x8000_0000 && b.bits >= 0x8000_0000 ==> !less(a, b)
        },
        !(less(a, b) && less(b, a)),
{
}

/// The bits of fractions are in the order of their values.
pub proof fn law_bits_are_in_the_order_of_values(f: Fraction, g: Fraction)
    requires
        normal(f),
        normal(g),
        f.s < 150,
        g.s < 150,
    ensures
        bits_of(f) < bits_of(g) <==> f.m * pow2(g.s) < g.m * pow2(f.s),
{
    let p = pow2(f.s) as int;
    let q = pow2(g.s) as int;
    let a = f.m as int;
    let b = g.m as int;
    lemma_pow2_pos(f.s);
    lemma_pow2_pos(g.s);
    if a == 0 || b == 0 {
        assert(0 * p == 0 && 0 * q == 0) by (nonlinear_arith);
        if a == 0 && b > 0 {
            assert(0 < b * p) by (nonlinear_arith)
                requires
                    b > 0,
                    p > 0,
            ;
            assert(bits_of(g) > 0) by {
                assert((150 - g.s) * 0x80_0000 >= 0x80_0000);
            }
        }
        if b == 0 {
            assert(0 <= a * q) by (nonlinear_arith)
                requires
                    a >= 0,
                    q > 0,
            ;
            if a > 0 {
                assert((150 - f.s) * 0x80_0000 >= 0x80_0000);
            }
        }
    } else if f.s == g.s {
        assert(a < b <==> a * p < b * p) by (nonlinear_arith)
            requires
                p > 0,
        ;
    } else if f.s < g.s {
        lemma_twice(f.s, g.s);
        assert(b * p < a * q) by (nonlinear_arith)
            requires
                q >= 2 * p,
                p > 0,
                0x80_0000 <= a < 0x100_0000,
                0x80_0000 <= b < 0x100_0000,
        ;
    } else {
        lemma_twice(g.s, f.s);
        assert(a * q < b * p) by (nonlinear_arith)
            requires
                p >= 2 * q,
                q > 0,
                0x80_0000 <= a < 0x100_0000,
                0x80_0000 <= b < 0x100_0000,
        ;
    }
}

proof fn lemma_twice(s: nat, t: nat)
    requires
        s < t,
    ensures
        pow2(t) >= 2 * pow2(s),
{
    vstd::arithmetic::power2::lemma_pow2_unfold(s + 1);
    if s + 1 < t {
        lemma_pow2_strictly_increases(s + 1, t);
    }
}

/// The distance of two numbers.
pub open spec fn distance(a: nat, b: nat) -> nat {
    if a < b {
        (b - a) as nat
    } else {
        (a - b) as nat
    }
}

/// The nearest whole number is no further than a half, and even where two are equally near.
pub proof fn law_nearest_whole(num: nat, den: nat)
    requires
        den > 0,
    ensures
        2 * distance(nearest_whole(num, den) * den, num) <= den,
        2 * distance(nearest_whole(num, den) * den, num) == den ==> nearest_whole(num, den)
            % 2 == 0,
{
    let q = num / den;
    let r = num % den;
    vstd::arithmetic::div_mod::lemma_fundamental_div_mod(num as int, den as int);
    vstd::arithmetic::div_mod::lemma_mod_bound(num as int, den as int);
    assert(den * q == q * den) by (nonlinear_arith);
    assert((q + 1) * den == q * den + den) by (nonlinear_arith);
}

/// A ratio below the largest significand is rounded to the nearest fraction with 24 significant bits.
pub proof fn law_rounding_is_nearest(num: nat, den: nat)
    requires
        den > 0,
        num < 0x80_0000 * den,
    ensures
        normal(rounded(num, den)),
        2 * distance(rounded(num, den).m * den, num * pow2(rounded(num, den).s)) <= den,
        num > 0 ==> rounded(num, den).m > 0,
{
    if num == 0 {
        assert(0 * den == 0 && 0 * pow2(0) == 0) by (nonlinear_arith);
    } else {
        let s = doublings(num, den);
        let x = raised(num, den);
        lemma_raised(num, den);
        lemma_raised_range(num, den);
        lemma_div_bounds(x, den, 0x80_0000nat);
        law_nearest_whole(x, den);
        let m = nearest_whole(x, den);
        let p = pow2(s);
        assert(p * num == num * p) by (nonlinear_arith);
        if m == 0x100_0000 {
            assert(s > 0);
            vstd::arithmetic::power2::lemma_pow2_unfold(s);
            let h = pow2((s - 1) as nat);
            assert(num * p == 2 * (num * h)) by (nonlinear_arith)
                requires
                    p == 2 * h,
            ;
            assert(0x100_0000 * den == 2 * (0x80_0000 * den)) by (nonlinear_arith);
        }
    }
}

proof fn lemma_raised_range(num: nat, den: nat)
    requires
        0 < num < 0x80_0000 * den,
    ensures
        0x80_0000 * den <= raised(num, den) < 2 * 0x80_0000 * den,
        doublings(num, den) > 0,
    decreases 0x80_0000 * den - num,
{
    if 2 * num < 0x80_0000 * den {
        lemma_raised_range(2 * num, den);
    } else {
        assert(raised(2 * num, den) == 2 * num);
    }
    assert(raised(num, den) == raised(2 * num, den));
    assert(2 * 0x80_0000 * den == 2 * (0x80_0000 * den)) by (nonlinear_arith);
}

/// Equal counts make one, and its bits are those of one.
pub proof fn law_whole_is_one(n: nat)
    requires
        n > 0,
    ensures
        rounded(n, n) == (Fraction { m: 0x80_0000, s: 23 }),
        bits_of(rounded(n, n)) == 0x3f80_0000,
{
    let f = rounded(n, n);
    assert(n < 0x80_0000 * n) by (nonlinear_arith)
        requires
            n > 0,
    ;
    law_rounding_is_nearest(n, n);
    let p = pow2(f.s) as int;
    let m = f.m as int;
    assert(m == p) by {
        if m > p {
            assert(m * n >= n * p + n) by (nonlinear_arith)
                requires
                    m >= p + 1,
                    n > 0,
            ;
        } else if m < p {
            assert(n * p >= m * n + n) by (nonlinear_arith)
                requires
                    p >= m + 1,
                    n > 0,
            ;
        }
    }
    vstd::arithmetic::power2::lemma2_to64();
    if f.s < 23 {
        lemma_pow2_strictly_increases(f.s, 23);
    } else if f.s > 23 {
        lemma_twice(23, f.s);
    }
}

/// The share of counts below 2 to the 24th is the nearest fraction to their ratio.
pub proof fn law_quotient_is_nearest(n: nat, d: nat)
    requires
        n <= d,
        0 < d < 0x100_0000,
    ensures
        quotient(n, d) == rounded(n, d),
        normal(quotient(n, d)),
        2 * distance(quotient(n, d).m * d, n * pow2(quotient(n, d).s)) <= d,
        n == 0 ==> bits_of(quotient(n, d)) == 0,
        n == d ==> bits_of(quotient(n, d)) == 0x3f80_0000,
{
    lemma_small_count(n);
    lemma_small_count(d);
    law_rounding_is_nearest(n, d);
    law_whole_is_one(d);
}

proof fn lemma_small_count(n: nat)
    requires
        n < 0x100_0000,
    ensures
        as_count(n) == n,
{
    assert(unit_of(n, 1) == 1);
    assert(n / 1 == n && n % 1 == 0);
}

/// The complement of a share is the nearest fraction to what it leaves of one.
pub proof fn law_complement_is_nearest(f: Fraction)
    requires
        at_most_one(f),
    ensures
        normal(complement(f)),
        2 * distance(
            complement(f).m * pow2(f.s),
            ((pow2(f.s) - f.m) as nat) * pow2(complement(f).s),
        ) <= pow2(f.s),
        f.m == 0 ==> bits_of(complement(f)) == 0x3f80_0000,
        f.m == pow2(f.s) ==> bits_of(complement(f)) == 0,
{
    let p = pow2(f.s);
    lemma_pow2_pos(f.s);
    law_rounding_is_nearest((p - f.m) as nat, p);
    law_whole_is_one(p);
}

/// Four decimals are the nearest ten-thousandths: the share times ten thousand, rounded half up, over
/// ten thousand.
pub proof fn law_four_decimals(f: Fraction)
    requires
        at_most_one(f),
    ensures
        ({
            let t = times(f, 10000);
            let k = half_up(t);
            &&& 2 * distance(t.m * pow2(f.s), (f.m * 10000) * pow2(t.s)) <= pow2(f.s)
            &&& 2 * k * pow2(t.s) <= 2 * t.m + pow2(t.s) < 2 * (k + 1) * pow2(t.s)
            &&& four_decimals(f) == rounded(k, 10000)
        }),
        f.m == 0 ==> bits_of(four_decimals(f)) == 0,
        f.m == pow2(f.s) ==> bits_of(four_decimals(f)) == 0x3f80_0000,
{
    let p = pow2(f.s);
    let t = times(f, 10000);
    let w = pow2(t.s);
    lemma_pow2_pos(f.s);
    lemma_pow2_pos(t.s);
    law_rounding_is_nearest(f.m * 10000, p);
    let k = half_up(t);
    vstd::arithmetic::div_mod::lemma_fundamental_div_mod((2 * t.m + w) as int, (2 * w) as int);
    vstd::arithmetic::div_mod::lemma_mod_bound((2 * t.m + w) as int, (2 * w) as int);
    assert((2 * w) * k == 2 * k * w) by (nonlinear_arith);
    assert(2 * (k + 1) * w == 2 * k * w + 2 * w) by (nonlinear_arith);
    if f.m == 0 {
        vstd::arithmetic::power2::lemma2_to64();
    }
    if f.m == p {
        // Ten thousand is a whole number of the last places of a number that size.
        let a = t.m as int;
        assert(a == 10000 * w) by {
            let x = (f.m * 10000) as int;
            assert(x * w == 10000 * (w * p)) by (nonlinear_arith)
                requires
                    x == p * 10000,
            ;
            if a > 10000 * w {
                assert(a * p >= 10000 * (w * p) + p) by (nonlinear_arith)
                    requires
                        a >= 10000 * w + 1,
                        p > 0,
                ;
            } else if a < 10000 * w {
                assert(a * p + p <= 10000 * (w * p)) by (nonlinear_arith)
                    requires
                        a + 1 <= 10000 * w,
                        p > 0,
                ;
            }
        }
        assert(k == 10000) by {
            if k > 10000 {
                assert(2 * k * w >= 20002 * w) by (nonlinear_arith)
                    requires
                        k >= 10001,
                        w > 0,
                ;
            } else if k < 10000 {
                assert(2 * (k + 1) * w <= 20000 * w) by (nonlinear_arith)
                    requires
                        k + 1 <= 10000,
                        w > 0,
                ;
            }
        }
        law_whole_is_one(10000);
    }
}

/// A percentage is the whole number nearest to a hundred times the share.
pub proof fn law_percent(f: Fraction)
    requires
        at_most_one(f),
    ensures
        ({
            let t = times(f, 100);
            &&& 2 * distance(t.m * pow2(f.s), (f.m * 100) * pow2(t.s)) <= pow2(f.s)
            &&& 2 * distance(percent_of(f) * pow2(t.s), t.m) <= pow2(t.s)
        }),
{
    let p = pow2(f.s);
    lemma_pow2_pos(f.s);
    lemma_pow2_pos(times(f, 100).s);
    law_rounding_is_nearest(f.m * 100, p);
    law_nearest_whole(times(f, 100).m, pow2(times(f, 100).s));
}

/// Two hundredths, as they are held, tell the ratios above them from the others.
pub proof fn law_two_hundredths(n: nat, d: nat)
    requires
        n <= d,
        0 < d <= 300_000,
    ensures
        less(Float { bits: 0x3ca3_d70a }, Float { bits: bits_of(quotient(n, d)) as u32 }) <==> 50 * n
            > d,
{
    let f = quotient(n, d);
    law_quotient_is_nearest(n, d);
    let c = Fraction { m: 0xa3_d70a, s: 29 };
    assert(bits_of(c) == 0x3ca3_d70a);
    if n == 0 {
        assert(bits_of(f) == 0);
    } else {
        let p = pow2(f.s) as int;
        let m = f.m as int;
        lemma_pow2_pos(f.s);
        law_rounding_is_nearest(n, d);
        lemma_share_scale(n, d);
        vstd::arithmetic::power2::lemma2_to64();
        law_bits_are_in_the_order_of_values(c, f);
        law_bits_are_in_the_order_of_values(f, c);
        assert(0 < bits_of(f) <= 0x3f80_0000);
        assert(bits_of(c) < bits_of(f) <==> 0xa3_d70a * p < m * 0x2000_0000);
        if 50 * n > d {
            assert(0xa3_d70a * p < m * 0x2000_0000) by (nonlinear_arith)
                requires
                    50 * n >= d + 1,
                    2 * (m * d) >= 2 * (n * p) - d,
                    p >= 0x80_0000,
                    0 < d <= 300_000,
            ;
        } else {
            assert(100 * m <= 2 * p + 50) by (nonlinear_arith)
                requires
                    50 * n <= d,
                    2 * (m * d) <= 2 * (n * p) + d,
                    p > 0,
                    d > 0,
            ;
            if f.s < 29 {
                lemma_twice(f.s, 29);
                assert(false);
            } else if f.s == 29 {
                assert(m <= 0xa3_d70a);
            } else {
                lemma_twice(29, f.s);
                assert(m * 0x2000_0000 <= 0xa3_d70a * p) by (nonlinear_arith)
                    requires
                        m < 0x100_0000,
                        p >= 2 * 0x2000_0000,
                        100 * m <= 2 * p + 50,
                ;
            }
        }
    }
}

/// The scale of a share.
pub proof fn lemma_share_scale(n: nat, d: nat)
    requires
        0 < n <= d,
        d <= 300_000,
    ensures
        pow2(rounded(n, d).s) >= 0x80_0000,
        rounded(n, d).s <= 60,
        bits_of(rounded(n, d)) <= 0x3f80_0000,
{
    let f = rounded(n, d);
    let p = pow2(f.s) as int;
    let m = f.m as int;
    law_rounding_is_nearest(n, d);
    lemma_pow2_pos(f.s);
    assert(p >= 0x80_0000) by (nonlinear_arith)
        requires
            2 * (m * d) <= 2 * (n * p) + d,
            m >= 0x80_0000,
            0 < n <= d,
    ;
    vstd::arithmetic::power2::lemma2_to64();
    vstd::arithmetic::power2::lemma2_to64_rest();
    if f.s > 60 {
        lemma_pow2_strictly_increases(60, f.s);
        assert(false) by (nonlinear_arith)
            requires
                2 * (m * d) >= 2 * (n * p) - d,
                m < 0x100_0000,
                n >= 1,
                d <= 300_000,
                d > 0,
                p > 0x1000_0000_0000_0000,
        ;
    }
    let one = Fraction { m: 0x80_0000, s: 23 };
    law_bits_are_in_the_order_of_values(one, f);
    assert(bits_of(one) == 0x3f80_0000);
    assert(n * p <= d * p) by (nonlinear_arith)
        requires
            n <= d,
            p > 0,
    ;
    if m > p {
        assert(m * d >= d * p + d) by (nonlinear_arith)
            requires
                m >= p + 1,
                d > 0,
        ;
    }
    assert(m * 0x80_0000 <= 0x80_0000 * p);
}

} // verus!
