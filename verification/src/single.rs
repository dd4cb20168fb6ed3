//! Numbers in single precision, as scores are made of.

use crate::float::{
    find_whole, half_even, is_normal, nearest, nearest_from_above, nearest_from_below, round, two_to,
    whole, Float, SINGLE, WIDE,
};
use vstd::arithmetic::power2::{
    lemma2_to64, lemma2_to64_rest, lemma_pow2_adds, lemma_pow2_pos, lemma_pow2_strictly_increases,
    lemma_pow2_unfold, pow2,
};
use vstd::prelude::*;

verus! {

/// A number: a significand times a power of two, or the negative of that.
pub struct Real {
    pub neg: bool,
    pub m: nat,
    pub e: int,
}

/// A number that is not negative.
pub open spec fn positive(f: Float) -> Real {
    Real { neg: false, m: f.m, e: f.e }
}

/// Zero.
pub open spec fn zero() -> Real {
    Real { neg: false, m: 0, e: 0 }
}

/// The number nearest to an integer.
pub open spec fn of_count(n: nat) -> Real {
    positive(nearest(SINGLE as nat, n, 1, 0))
}

/// The number nearest to a fraction.
pub open spec fn of_ratio(n: nat, d: nat) -> Real {
    positive(nearest(SINGLE as nat, n, d, 0))
}

/// One number divided by another, both of them not negative.
pub open spec fn quotient(a: Real, b: Real) -> Real {
    positive(nearest(SINGLE as nat, a.m, b.m, a.e - b.e))
}

/// The product of two numbers that are not negative.
pub open spec fn product(a: Real, b: Real) -> Real {
    positive(nearest(SINGLE as nat, a.m * b.m, 1, a.e + b.e))
}

/// The negative of a number.
pub open spec fn negative(a: Real) -> Real {
    if a.m == 0 {
        a
    } else {
        Real { neg: !a.neg, ..a }
    }
}

/// A number in units of two to the power of `e`, which is no more than its own
/// exponent.
pub open spec fn in_units_of(a: Real, e: int) -> int {
    let n = a.m * pow2((a.e - e) as nat);
    if a.neg {
        -n
    } else {
        n as int
    }
}

/// The smaller of two exponents.
pub open spec fn common_exponent(a: Real, b: Real) -> int {
    if a.e <= b.e {
        a.e
    } else {
        b.e
    }
}

/// The number nearest to `x` times two to the power of `e`.
pub open spec fn nearest_signed(x: int, e: int) -> Real {
    if x < 0 {
        Real { neg: true, ..positive(nearest(SINGLE as nat, (-x) as nat, 1, e)) }
    } else {
        positive(nearest(SINGLE as nat, x as nat, 1, e))
    }
}

/// The sum of two numbers.
pub open spec fn sum(a: Real, b: Real) -> Real {
    if a.m == 0 {
        b
    } else if b.m == 0 {
        a
    } else {
        let e = common_exponent(a, b);
        nearest_signed(in_units_of(a, e) + in_units_of(b, e), e)
    }
}

/// Whether one number is smaller than another.
pub open spec fn below(a: Real, b: Real) -> bool {
    if a.m == 0 {
        b.m > 0 && !b.neg
    } else if b.m == 0 {
        a.neg
    } else {
        let e = common_exponent(a, b);
        in_units_of(a, e) < in_units_of(b, e)
    }
}

/// A number as a percentage, to the nearest integer.
pub open spec fn percent(a: Real) -> nat {
    let p = product(a, of_count(100));
    whole(Float { m: p.m, e: p.e })
}

/// A number in single precision.
#[derive(Debug, Clone, Copy, PartialEq, Eq)]
pub struct Single {
    neg: bool,
    m: u64,
    e: i128,
}

impl View for Single {
    type V = Real;

    closed spec fn view(&self) -> Real {
        Real { neg: self.neg, m: self.m as nat, e: self.e as int }
    }
}

/// Whether the exponent of a number is no further than `limit` from zero.
pub open spec fn tame(a: Real, limit: int) -> bool {
    -limit <= a.e <= limit
}

/// Whether a number is written as it should be.
pub open spec fn is_single(a: Real) -> bool {
    &&& is_normal(SINGLE as nat, Float { m: a.m, e: a.e })
    &&& a.m == 0 ==> !a.neg
}

// ── Numbers far apart ────────────────────────────────────────────────────

proof fn climb(low: nat, n: nat, j: nat, g: nat, e: int)
    requires
        low > 0,
        j <= g,
        low * pow2(g) <= n,
    ensures
        nearest(low, n, pow2(j), e + j) == nearest(low, n, pow2(g), e + g),
    decreases g - j,
{
    if j < g {
        let d = pow2(j);
        lemma_pow2_unfold(j + 1);
        lemma_pow2_pos(j);
        let next = pow2(j + 1);
        if j + 1 < g {
            lemma_pow2_strictly_increases(j + 1, g);
        }
        let top = pow2(g);
        assert(n >= 2 * (d * low)) by (nonlinear_arith)
            requires
                low * top <= n,
                next == 2 * d,
                next <= top,
        ;
        assert(d * low > 0) by (nonlinear_arith)
            requires
                d > 0,
                low > 0,
        ;
        climb(low, n, j + 1, g, e);
    }
}

proof fn nearest_of_far_sum(low: nat, a: nat, b: nat, g: nat, e: int)
    requires
        low > 0,
        low <= a < 2 * low,
        2 * b < pow2(g),
    ensures
        nearest(low, a * pow2(g) + b, 1, e) == (Float { m: a, e: e + g }),
{
    let d = pow2(g);
    let n = a * d + b;
    lemma2_to64();
    assert(low * d <= n && n < 2 * (d * low) && d * low <= n) by (nonlinear_arith)
        requires
            n == a * d + b,
            low <= a,
            a + 1 <= 2 * low,
            b < d,
    ;
    climb(low, n, 0, g, e);
    assert(d * low > 0) by (nonlinear_arith)
        requires
            d > 0,
            low > 0,
    ;
    assert(n / d == a && n % d == b) by {
        vstd::arithmetic::div_mod::lemma_fundamental_div_mod_converse(
            n as int,
            d as int,
            a as int,
            b as int,
        );
    }
}

proof fn nearest_of_far_difference(low: nat, a: nat, b: nat, g: nat, e: int)
    requires
        low > 1,
        low <= a < 2 * low,
        0 < b,
        4 * b < pow2(g),
        g >= 1,
    ensures
        a * pow2(g) >= b,
        nearest(low, (a * pow2(g) - b) as nat, 1, e) == (Float { m: a, e: e + g }),
{
    let d = pow2(g);
    assert(a * d >= d) by (nonlinear_arith)
        requires
            a >= 1,
    ;
    let n = (a * d - b) as nat;
    lemma2_to64();
    if a > low {
        assert(low * d <= n && n < 2 * (d * low) && d * low <= n) by (nonlinear_arith)
            requires
                n == a * d - b,
                low + 1 <= a,
                a <= 2 * low,
                0 < b < d,
        ;
        climb(low, n, 0, g, e);
        assert(d * low > 0) by (nonlinear_arith)
            requires
                d > 0,
                low > 0,
        ;
        let q = (a - 1) as int;
        let r = d - b;
        assert(n == q * d + r) by (nonlinear_arith)
            requires
                n == a * d - b,
                q == a - 1,
                r == d - b,
        ;
        vstd::arithmetic::div_mod::lemma_fundamental_div_mod_converse(n as int, d as int, q, r);
    } else {
        let h = (g - 1) as nat;
        lemma_pow2_unfold(g);
        let half = pow2(h);
        assert(low * half <= n && n < 2 * (half * low) && half * low <= n) by (nonlinear_arith)
            requires
                n == low * d - b,
                d == 2 * half,
                0 < b < half,
                low >= 1,
        ;
        climb(low, n, 0, h, e);
        assert(half * low > 0) by (nonlinear_arith)
            requires
                half > 0,
                low > 0,
        ;
        let q = 2 * low - 1;
        let r = half - b;
        assert(n == q * half + r) by (nonlinear_arith)
            requires
                n == low * d - b,
                d == 2 * half,
                q == 2 * low - 1,
                r == half - b,
        ;
        vstd::arithmetic::div_mod::lemma_fundamental_div_mod_converse(n as int, half as int, q, r);
    }
}

proof fn finer_units(a: Real, e: int, k: nat)
    requires
        e <= a.e,
    ensures
        in_units_of(a, e - k) == in_units_of(a, e) * pow2(k),
{
    let g = (a.e - e) as nat;
    lemma_pow2_adds(g, k);
    let x = pow2(g);
    let y = pow2(k);
    let m = a.m;
    assert(m * (x * y) == (m * x) * y) by (nonlinear_arith);
    assert((-(m * x)) * y == -((m * x) * y)) by (nonlinear_arith);
}

/// Numbers are ordered as they are in any unit that both are multiples of.
proof fn below_in_units(a: Real, b: Real, e: int)
    requires
        e <= a.e,
        e <= b.e,
    ensures
        below(a, b) == (in_units_of(a, e) < in_units_of(b, e)),
{
    let x = pow2((a.e - e) as nat);
    let y = pow2((b.e - e) as nat);
    lemma_pow2_pos((a.e - e) as nat);
    lemma_pow2_pos((b.e - e) as nat);
    let (ma, mb) = (a.m, b.m);
    assert(ma * x >= 0 && (ma > 0 ==> ma * x > 0) && (ma == 0 ==> ma * x == 0)) by (nonlinear_arith)
        requires
            x > 0,
    ;
    assert(mb * y >= 0 && (mb > 0 ==> mb * y > 0) && (mb == 0 ==> mb * y == 0)) by (nonlinear_arith)
        requires
            y > 0,
    ;
    if a.m > 0 && b.m > 0 {
        let c = common_exponent(a, b);
        let k = (c - e) as nat;
        finer_units(a, c, k);
        finer_units(b, c, k);
        lemma_pow2_pos(k);
        let (u, v, two) = (in_units_of(a, c), in_units_of(b, c), pow2(k));
        assert((u < v) == (u * two < v * two)) by (nonlinear_arith)
            requires
                two > 0,
        ;
    }
}

/// Of two numbers at most one is smaller than the other, and a number that is
/// not smaller than one that is not smaller than a third is not smaller than
/// the third.
pub proof fn below_is_an_order(a: Real, b: Real, c: Real)
    ensures
        !(below(a, b) && below(b, a)),
        !below(a, b) && !below(b, c) ==> !below(a, c),
        below(a, b) && !below(c, b) ==> below(a, c),
        below(a, b) && !below(a, c) ==> below(c, b),
{
    let least = if a.e <= b.e && a.e <= c.e {
        a.e
    } else if b.e <= c.e {
        b.e
    } else {
        c.e
    };
    below_in_units(a, b, least);
    below_in_units(b, a, least);
    below_in_units(b, c, least);
    below_in_units(c, b, least);
    below_in_units(a, c, least);
    below_in_units(c, a, least);
}

proof fn pow2_is_large(g: nat)
    requires
        g > 100,
    ensures
        pow2(g) > 0x1_0000_0000_0000_0000,
{
    lemma2_to64();
    lemma_pow2_strictly_increases(64, g);
}

/// Where exponents are more than a hundred apart, the sum is the number with the
/// larger one.
proof fn sum_of_far_apart(hi: Real, lo: Real)
    requires
        is_single(hi),
        is_single(lo),
        hi.m > 0,
        lo.m > 0,
        hi.e - lo.e > 100,
    ensures
        sum(hi, lo) == hi,
        sum(lo, hi) == hi,
        below(hi, lo) == hi.neg,
        below(lo, hi) == !hi.neg,
{
    let low = SINGLE as nat;
    let g = (hi.e - lo.e) as nat;
    let two = pow2(g);
    pow2_is_large(g);
    lemma2_to64();
    assert(lo.m * pow2(0) == lo.m) by (nonlinear_arith)
        requires
            pow2(0) == 1,
    ;
    assert(hi.m * two > lo.m) by (nonlinear_arith)
        requires
            hi.m >= 1,
            two > 0x1_0000_0000_0000_0000,
            lo.m < 0x1_0000_0000_0000_0000,
    ;
    nearest_of_far_sum(low, hi.m, lo.m, g, lo.e);
    nearest_of_far_difference(low, hi.m, lo.m, g, lo.e);
}

proof fn a_half_and_a_hundred()
    ensures
        of_ratio(1, 2) == (Real { neg: false, m: SINGLE as nat, e: -24 }),
        of_count(100) == (Real { neg: false, m: 13_107_200, e: -17 }),
{
    let low = SINGLE as nat;
    lemma2_to64();
    nearest_of_power(low, 1, 2, 0, 24);
    nearest_of_power(low, 100, 1, 0, 17);
}

proof fn nearest_of_power(low: nat, n: nat, d: nat, e: int, k: nat)
    requires
        low > 0,
        n > 0,
        d > 0,
        d * low <= n * pow2(k) < 2 * (d * low),
        half_even(n * pow2(k), d) < 2 * low,
    ensures
        nearest(low, n, d, e) == (Float { m: half_even(n * pow2(k), d), e: e - k }),
    decreases k,
{
    let two = pow2(k);
    if k == 0 {
        lemma2_to64();
        assert(n * two == n) by (nonlinear_arith)
            requires
                two == 1,
        ;
    } else {
        let j = (k - 1) as nat;
        lemma_pow2_unfold(k);
        lemma_pow2_pos(j);
        let one = pow2(j);
        assert((2 * n) * one == n * two && n < d * low) by (nonlinear_arith)
            requires
                two == 2 * one,
                one >= 1,
                n * two < 2 * (d * low),
        ;
        nearest_of_power(low, 2 * n, d, e - 1, j);
    }
}

/// A half is less than any count but zero.
pub proof fn a_half_is_less_than_one(n: nat)
    requires
        n > 0,
    ensures
        below(of_ratio(1, 2), of_count(n)),
        !below(of_count(n), of_ratio(1, 2)),
{
    let low = SINGLE as nat;
    let half = of_ratio(1, 2);
    let one = of_count(n);
    a_half_and_a_hundred();
    lemma2_to64();
    if n < 2 * low {
        nearest_from_below(low, n, 1, 0, 0, 23);
    } else {
        let k = n;
        counts_are_less_than_powers(n);
        let two = pow2(k);
        assert(n < (2 * (1 * low)) * two) by (nonlinear_arith)
            requires
                n < two,
                low >= 1,
        ;
        nearest_from_above(low, n, 1, 0, k);
    }
    let g = (one.e + 24) as nat;
    lemma_pow2_unfold(g);
    lemma_pow2_pos((g - 1) as nat);
    let two = pow2(g);
    let unit = pow2(0);
    assert(one.m * two > half.m * unit) by (nonlinear_arith)
        requires
            one.m >= half.m,
            half.m >= 1,
            two >= 2,
            unit == 1,
    ;
}

proof fn counts_are_less_than_powers(n: nat)
    ensures
        n < pow2(n),
    decreases n,
{
    if n == 0 {
        lemma2_to64();
    } else {
        counts_are_less_than_powers((n - 1) as nat);
        lemma_pow2_unfold(n);
    }
}

/// What is less than fifteen percent is less than a half.
pub(crate) proof fn few_is_less_than_half(a: Real)
    requires
        !a.neg,
        below(a, of_ratio(15, 100)),
    ensures
        below(a, of_ratio(1, 2)),
{
    let low = SINGLE as nat;
    a_half_and_a_hundred();
    lemma2_to64();
    nearest_of_power(low, 15, 100, 0, 26);
    let few = of_ratio(15, 100);
    let half = of_ratio(1, 2);
    assert(few.m == 10_066_330 && few.e == -26);
    if a.m > 0 {
        let unit = pow2(0);
        if a.e <= -26 {
            let x = pow2((-26 - a.e) as nat);
            lemma_pow2_adds((-26 - a.e) as nat, 2);
            let y = pow2((-24 - a.e) as nat);
            assert(a.m * unit < half.m * y) by (nonlinear_arith)
                requires
                    a.m * unit < few.m * x,
                    y == x * 4,
                    few.m == 10_066_330,
                    half.m == 0x80_0000,
                    x >= 0,
            ;
        } else if a.e <= -24 {
            let x = pow2((a.e + 26) as nat);
            let y = pow2((-24 - a.e) as nat);
            assert(a.m * unit < half.m * y) by (nonlinear_arith)
                requires
                    a.m * x < few.m * unit,
                    (x == 2 && y == 2) || (x == 4 && y == 1),
                    unit == 1,
                    few.m == 10_066_330,
                    half.m == 0x80_0000,
            ;
        } else {
            let x = pow2((a.e + 26) as nat);
            lemma_pow2_adds((a.e + 24) as nat, 2);
            let y = pow2((a.e + 24) as nat);
            assert(a.m * y < half.m * unit) by (nonlinear_arith)
                requires
                    a.m * x < few.m * unit,
                    x == y * 4,
                    unit == 1,
                    few.m == 10_066_330,
                    half.m == 0x80_0000,
            ;
        }
    }
}

/// What is less than a half is, as a percentage, a small number.
proof fn percent_is_small(a: Real)
    requires
        is_single(a),
        a.m > 0,
        !a.neg,
        below(a, of_ratio(1, 2)),
    ensures
        product(a, of_count(100)).e < 0,
{
    let low = SINGLE as nat;
    let half = of_ratio(1, 2);
    a_half_and_a_hundred();
    lemma2_to64();
    if a.e >= -24 {
        let two = pow2((a.e + 24) as nat);
        let one = pow2(0);
        lemma_pow2_pos((a.e + 24) as nat);
        assert(a.m * two >= half.m * one) by (nonlinear_arith)
            requires
                a.m >= half.m,
                two >= 1,
                one == 1,
        ;
    }
    let n = a.m * 13_107_200;
    nearest_from_above(low, n, 1, a.e - 17, 24);
}

/// A number with a far smaller exponent is nearest to zero.
proof fn tiny_is_none(m: nat, e: int)
    requires
        m < 2 * SINGLE,
        e < -126,
    ensures
        whole(Float { m, e }) == 0,
{
    let d = pow2((-e) as nat);
    lemma2_to64();
    lemma_pow2_strictly_increases(64, (-e) as nat);
    assert(m / d == 0 && m % d == m) by {
        vstd::arithmetic::div_mod::lemma_fundamental_div_mod_converse(
            m as int,
            d as int,
            0,
            m as int,
        );
    }
}

impl Single {
    #[verifier::type_invariant]
    closed spec fn wf(&self) -> bool {
        is_single(self@) && tame(self@, 0x3000_0000_0000_0000_0000_0000_0000_0000)
    }

    /// Zero.
    pub fn zero() -> (out: Self)
        ensures
            out@ == zero(),
            tame(out@, 0),
    {
        Single { neg: false, m: 0, e: 0 }
    }

    /// The number nearest to a fraction.
    pub fn ratio(n: u64, d: u64) -> (out: Self)
        requires
            d > 0,
        ensures
            out@ == of_ratio(n as nat, d as nat),
            tame(out@, 130),
    {
        if n == 0 {
            return Single::zero();
        }
        let parts = round(SINGLE, n as u128, d as u128, 0);
        Single { neg: false, m: parts.m, e: parts.e }
    }

    /// The number nearest to an integer.
    pub fn of(n: usize) -> (out: Self)
        ensures
            out@ == of_count(n as nat),
            tame(out@, 130),
            n > 0 ==> out@.m > 0,
    {
        if n == 0 {
            return Single::zero();
        }
        let parts = round(SINGLE, n as u128, 1, 0);
        Single { neg: false, m: parts.m, e: parts.e }
    }

    /// This number divided by another, both of them not negative.
    pub(crate) fn over(&self, other: &Self, Ghost(limit): Ghost<int>) -> (out: Self)
        requires
            !self@.neg,
            !other@.neg,
            other@.m > 0,
            0 <= limit <= WIDE,
            tame(self@, limit),
            tame(other@, limit),
        ensures
            out@ == quotient(self@, other@),
            tame(out@, 2 * limit + 130),
    {
        proof {
            use_type_invariant(self);
            use_type_invariant(other);
        }
        if self.m == 0 {
            return Single::zero();
        }
        let parts = round(SINGLE, self.m as u128, other.m as u128, self.e - other.e);
        Single { neg: false, m: parts.m, e: parts.e }
    }

    /// The product of two numbers that are not negative.
    pub(crate) fn times(&self, other: &Self, Ghost(limit): Ghost<int>) -> (out: Self)
        requires
            !self@.neg,
            !other@.neg,
            0 <= limit <= WIDE,
            tame(self@, limit),
            tame(other@, limit),
        ensures
            out@ == product(self@, other@),
            tame(out@, 2 * limit + 130),
    {
        proof {
            use_type_invariant(self);
            use_type_invariant(other);
        }
        if self.m == 0 || other.m == 0 {
            assert(self.m * other.m == 0) by (nonlinear_arith)
                requires
                    self.m == 0 || other.m == 0,
            ;
            return Single::zero();
        }
        assert(0 < self.m * other.m < 0x100_0000 * 0x100_0000) by (nonlinear_arith)
            requires
                0 < self.m < 0x100_0000,
                0 < other.m < 0x100_0000,
        ;
        let parts = round(SINGLE, (self.m as u128) * (other.m as u128), 1, self.e + other.e);
        Single { neg: false, m: parts.m, e: parts.e }
    }

    /// Whether this number is negative, its significand and its exponent.
    pub fn parts(&self) -> (out: (bool, u64, i128))
        ensures
            self@ == (Real { neg: out.0, m: out.1 as nat, e: out.2 as int }),
    {
        (self.neg, self.m, self.e)
    }

    /// The negative of this number.
    pub fn negated(&self) -> (out: Self)
        ensures
            out@ == negative(self@),
    {
        proof {
            use_type_invariant(self);
        }
        if self.m == 0 {
            *self
        } else {
            Single { neg: !self.neg, m: self.m, e: self.e }
        }
    }

    /// The sum of two numbers.
    pub(crate) fn plus(&self, other: &Self, Ghost(limit): Ghost<int>) -> (out: Self)
        requires
            0 <= limit <= WIDE,
            tame(self@, limit),
            tame(other@, limit),
        ensures
            out@ == sum(self@, other@),
            tame(out@, limit + 130),
    {
        proof {
            use_type_invariant(self);
            use_type_invariant(other);
        }
        if self.m == 0 {
            return *other;
        }
        if other.m == 0 {
            return *self;
        }
        let a_high = self.e >= other.e;
        let hi: &Single = if a_high {
            self
        } else {
            other
        };
        let lo: &Single = if a_high {
            other
        } else {
            self
        };
        let gap = hi.e - lo.e;
        if gap > 100 {
            proof {
                sum_of_far_apart(hi@, lo@);
            }
            return *hi;
        }
        let x = difference(hi, lo, false, gap);
        let e = lo.e;
        if x == 0 {
            Single::zero()
        } else if x < 0 {
            let parts = round(SINGLE, (-x) as u128, 1, e);
            Single { neg: true, m: parts.m, e: parts.e }
        } else {
            let parts = round(SINGLE, x as u128, 1, e);
            Single { neg: false, m: parts.m, e: parts.e }
        }
    }

    /// This number as a percentage, to the nearest integer; it is not negative,
    /// and less than a half.
    pub(crate) fn percent(&self) -> (out: u64)
        requires
            !self@.neg,
            tame(self@, WIDE as int),
            below(self@, of_ratio(1, 2)),
        ensures
            out == percent(self@),
    {
        proof {
            use_type_invariant(self);
            a_half_and_a_hundred();
        }
        let hundred = Single::of(100);
        let p = self.times(&hundred, Ghost(WIDE as int));
        proof {
            use_type_invariant(&p);
            lemma2_to64();
        }
        if p.m == 0 {
            proof {
                let one = pow2(0);
                assert(p.m * one == 0) by (nonlinear_arith)
                    requires
                        p.m == 0,
                ;
            }
            return 0;
        }
        assert(self.m > 0) by {
            assert(self.m == 0 ==> self.m * hundred@.m == 0) by (nonlinear_arith);
        }
        proof {
            percent_is_small(self@);
        }
        if p.e < -126 {
            proof {
                tiny_is_none(p.m as nat, p.e as int);
            }
            return 0;
        }
        let out = find_whole(p.m as u128, p.e);
        proof {
            let d = pow2((-p.e) as nat);
            lemma_pow2_pos((-p.e) as nat);
            assert(p.m as nat / d <= p.m) by (nonlinear_arith)
                requires
                    d > 0,
            ;
        }
        out as u64
    }

    /// Whether this number is smaller than another.
    pub fn is_below(&self, other: &Self) -> (r: bool)
        ensures
            r == below(self@, other@),
    {
        proof {
            use_type_invariant(self);
            use_type_invariant(other);
        }
        if self.m == 0 {
            return other.m > 0 && !other.neg;
        }
        if other.m == 0 {
            return self.neg;
        }
        if self.e >= other.e {
            let gap = self.e - other.e;
            if gap > 100 {
                proof {
                    sum_of_far_apart(self@, other@);
                }
                self.neg
            } else {
                difference(self, other, true, gap) < 0
            }
        } else {
            let gap = other.e - self.e;
            if gap > 100 {
                proof {
                    sum_of_far_apart(other@, self@);
                }
                !other.neg
            } else {
                difference(other, self, true, gap) > 0
            }
        }
    }
}

/// `hi` plus `lo`, or minus `lo`, in units of two to the power of the exponent of
/// `lo`.
fn difference(hi: &Single, lo: &Single, minus: bool, gap: i128) -> (x: i128)
    requires
        hi@.m > 0,
        lo@.m > 0,
        gap == hi@.e - lo@.e,
        0 <= gap <= 100,
    ensures
        x == in_units_of(hi@, lo@.e) + (if minus {
            -in_units_of(lo@, lo@.e)
        } else {
            in_units_of(lo@, lo@.e)
        }),
        -0x2000_0000_0000_0000_0000_0000_0000_0000 < x < 0x2000_0000_0000_0000_0000_0000_0000_0000,
{
    proof {
        use_type_invariant(hi);
        use_type_invariant(lo);
        lemma2_to64();
        lemma2_to64_rest();
        lemma_pow2_adds(50, 50);
        if gap < 100 {
            lemma_pow2_strictly_increases(gap as nat, 100);
        }
        let one = pow2(0);
        assert(lo.m * one == lo.m) by (nonlinear_arith)
            requires
                one == 1,
        ;
    }
    let two = two_to(gap as u32);
    assert(0 <= hi.m * two <= 0x100_0000 * 0x10_0000_0000_0000_0000_0000_0000) by (nonlinear_arith)
        requires
            0 <= hi.m <= 0x100_0000,
            0 <= two <= 0x10_0000_0000_0000_0000_0000_0000,
    ;
    let big = ((hi.m as u128) * two) as i128;
    let a = if hi.neg {
        -big
    } else {
        big
    };
    let b = if lo.neg != minus {
        -(lo.m as i128)
    } else {
        lo.m as i128
    };
    a + b
}

} // verus!
