//! Arithmetic in binary floating point, carried out on integers.
//!
//! A number is a significand times a power of two. Every operation gives the
//! number nearest to the exact result among those whose significand has a given
//! number of bits, the one with an even significand where two are equally near:
//! 53 bits in double precision, 24 in single precision. Exponents are not
//! bounded, so nothing overflows and nothing vanishes.

use vstd::arithmetic::power2::{
    lemma2_to64, lemma2_to64_rest, lemma_pow2_adds, lemma_pow2_pos, lemma_pow2_strictly_increases,
    lemma_pow2_unfold, pow2,
};
use vstd::prelude::*;

verus! {

/// The smallest significand in double precision.
pub const DOUBLE: u128 = 0x10_0000_0000_0000;

/// The smallest significand in single precision.
pub const SINGLE: u128 = 0x80_0000;

/// A number that is not negative: `m` times two to the power of `e`.
pub struct Float {
    pub m: nat,
    pub e: int,
}

/// The integer nearest to `n / d`, the even one where two are equally near.
pub open spec fn half_even(n: nat, d: nat) -> nat {
    let q = n / d;
    let r = n % d;
    if 2 * r > d || (2 * r == d && q % 2 == 1) {
        q + 1
    } else {
        q
    }
}

/// The number nearest to `n / d` times two to the power of `e`, with a
/// significand from `low` up to twice that.
pub open spec fn nearest(low: nat, n: nat, d: nat, e: int) -> Float
    decreases
            if n < d * low {
                d * low - n
            } else if n >= 2 * (d * low) {
                n - d * low
            } else {
                0
            },
    via nearest_ends
{
    if n == 0 || d == 0 || low == 0 {
        Float { m: 0, e: 0 }
    } else if n < d * low {
        nearest(low, 2 * n, d, e - 1)
    } else if n >= 2 * (d * low) {
        nearest(low, n, 2 * d, e + 1)
    } else if half_even(n, d) == 2 * low {
        Float { m: low, e: e + 1 }
    } else {
        Float { m: half_even(n, d), e }
    }
}

#[via_fn]
proof fn nearest_ends(low: nat, n: nat, d: nat, e: int) {
    assert((2 * d) * low == 2 * (d * low)) by (nonlinear_arith);
    assert(d > 0 && low > 0 ==> d * low > 0) by (nonlinear_arith);
}

/// The integer nearest to a number.
pub open spec fn whole(f: Float) -> nat {
    if f.e >= 0 {
        f.m * pow2(f.e as nat)
    } else {
        half_even(f.m, pow2((-f.e) as nat))
    }
}

/// Whether the significand has as many bits as it should, or the number is zero.
pub open spec fn is_normal(low: nat, f: Float) -> bool {
    if f.m == 0 {
        f.e == 0
    } else {
        low <= f.m < 2 * low
    }
}

proof fn half_even_between(n: nat, d: nat, k: nat)
    requires
        d > 0,
        d * k <= n < 2 * (d * k),
    ensures
        k <= half_even(n, d) <= 2 * k,
{
    let q = n / d;
    assert(k <= q < 2 * k) by (nonlinear_arith)
        requires
            q == n / d,
            d > 0,
            d * k <= n < 2 * (d * k),
    ;
}

/// From below, what is nearest takes at least `j` doublings and at most `k`.
pub proof fn nearest_from_below(low: nat, n: nat, d: nat, e: int, j: nat, k: nat)
    requires
        low > 0,
        n > 0,
        d > 0,
        n * pow2(j) < 2 * (d * low),
        d * low <= n * pow2(k),
    ensures
        is_normal(low, nearest(low, n, d, e)),
        nearest(low, n, d, e).m > 0,
        e - k <= nearest(low, n, d, e).e <= e - j + 1,
    decreases k,
{
    let p = d * low;
    lemma2_to64();
    lemma_pow2_pos(j);
    let twice = pow2(j);
    if j > 0 {
        lemma_pow2_unfold(j);
        let half = pow2((j - 1) as nat);
        lemma_pow2_pos((j - 1) as nat);
        assert(n < p) by (nonlinear_arith)
            requires
                n * twice < 2 * p,
                twice == 2 * half,
                half >= 1,
        ;
        assert((2 * n) * half == n * twice) by (nonlinear_arith)
            requires
                twice == 2 * half,
        ;
    } else {
        assert(n * twice == n) by (nonlinear_arith)
            requires
                twice == 1,
        ;
    }
    if n < p {
        if k > 0 {
            let after = (k - 1) as nat;
            lemma_pow2_unfold(k);
            let two = pow2(after);
            assert((2 * n) * two == n * (2 * two)) by (nonlinear_arith);
            if j > 0 {
                nearest_from_below(low, 2 * n, d, e - 1, (j - 1) as nat, after);
            } else {
                nearest_from_below(low, 2 * n, d, e - 1, 0, after);
            }
        } else {
            let two = pow2(k);
            assert(n * two == n) by (nonlinear_arith)
                requires
                    two == 1,
            ;
        }
    } else {
        half_even_between(n, d, low);
    }
}

/// From above, what is nearest takes at most `k` halvings.
pub proof fn nearest_from_above(low: nat, n: nat, d: nat, e: int, k: nat)
    requires
        low > 0,
        d > 0,
        d * low <= n,
        n < (2 * (d * low)) * pow2(k),
    ensures
        is_normal(low, nearest(low, n, d, e)),
        nearest(low, n, d, e).m > 0,
        e <= nearest(low, n, d, e).e <= e + k + 1,
    decreases k,
{
    let p = d * low;
    assert(p > 0) by (nonlinear_arith)
        requires
            p == d * low,
            d > 0,
            low > 0,
    ;
    if n >= 2 * p {
        if k == 0 {
            lemma2_to64();
        } else {
            let j = (k - 1) as nat;
            lemma_pow2_unfold(k);
            let two = pow2(j);
            assert((2 * d) * low == 2 * p) by (nonlinear_arith)
                requires
                    p == d * low,
            ;
            assert((2 * (2 * p)) * two == (2 * p) * (2 * two)) by (nonlinear_arith);
            nearest_from_above(low, n, 2 * d, e + 1, j);
        }
    } else {
        half_even_between(n, d, low);
    }
}

/// What is nearest has a significand of the right size, and an exponent that
/// differs from the given one by no more than the doublings that bring `n` and
/// `d * low` together.
pub proof fn nearest_holds(low: nat, n: nat, d: nat, e: int, k: nat)
    requires
        low > 0,
        n > 0,
        d > 0,
        d * low <= n * pow2(k),
        n < (2 * (d * low)) * pow2(k),
    ensures
        is_normal(low, nearest(low, n, d, e)),
        nearest(low, n, d, e).m > 0,
        e - k <= nearest(low, n, d, e).e <= e + k + 1,
{
    if n < 2 * (d * low) {
        lemma2_to64();
        nearest_from_below(low, n, d, e, 0, k);
    } else {
        nearest_from_above(low, n, d, e, k);
    }
}

/// Whether `a` and `b` are no further apart than half of `unit`.
pub open spec fn within_half(a: int, b: int, unit: int) -> bool {
    -unit <= 2 * (a - b) <= unit
}

/// Whether `f` is no further from `n / d` times two to the power of `e` than half
/// a unit of its last binary place.
pub open spec fn is_near(f: Float, n: nat, d: nat, e: int) -> bool {
    if f.e <= e {
        within_half((n * pow2((e - f.e) as nat)) as int, (f.m * d) as int, d as int)
    } else {
        let unit = d * pow2((f.e - e) as nat);
        within_half(n as int, (f.m * unit) as int, unit as int)
    }
}

/// What is nearest is near: it is no further from the exact value than half a
/// unit of its last binary place.
pub proof fn nearest_is_near(low: nat, n: nat, d: nat, e: int)
    requires
        low > 0,
        n > 0,
        d > 0,
    ensures
        is_near(nearest(low, n, d, e), n, d, e),
    decreases
            if n < d * low {
                d * low - n
            } else if n >= 2 * (d * low) {
                n - d * low
            } else {
                0
            },
{
    let f = nearest(low, n, d, e);
    assert((2 * d) * low == 2 * (d * low)) by (nonlinear_arith);
    assert(d * low > 0) by (nonlinear_arith)
        requires
            d > 0,
            low > 0,
    ;
    lemma2_to64();
    let m = f.m;
    if n < d * low {
        nearest_is_near(low, 2 * n, d, e - 1);
        if f.e <= e - 1 {
            let s = (e - 1 - f.e) as nat;
            lemma_pow2_unfold(s + 1);
            let two = pow2(s);
            assert((2 * n) * two == n * (2 * two)) by (nonlinear_arith);
        } else {
            let u = (f.e - e) as nat;
            lemma_pow2_unfold(u + 1);
            let two = pow2(u);
            let unit = d * two;
            let wide = d * pow2(u + 1);
            assert(wide == 2 * unit && m * wide == 2 * (m * unit)) by (nonlinear_arith)
                requires
                    unit == d * two,
                    wide == d * (2 * two),
            ;
            if u == 0 {
                assert(unit == d && n * pow2(0) == n) by (nonlinear_arith)
                    requires
                        unit == d * two,
                        two == 1,
                        pow2(0) == 1,
                ;
            }
        }
    } else if n >= 2 * (d * low) {
        nearest_is_near(low, n, 2 * d, e + 1);
        if f.e <= e {
            let s = (e - f.e) as nat;
            lemma_pow2_unfold(s + 1);
            let two = pow2(s);
            assert(n * (2 * two) == 2 * (n * two) && m * (2 * d) == 2 * (m * d)) by (nonlinear_arith);
        } else {
            let u = (f.e - e) as nat;
            let before = (u - 1) as nat;
            lemma_pow2_unfold(u);
            let two = pow2(before);
            assert((2 * d) * two == d * (2 * two)) by (nonlinear_arith);
            if u == 1 {
                assert(n * pow2(0) == n && d * pow2(1) == 2 * d) by (nonlinear_arith)
                    requires
                        pow2(0) == 1,
                        pow2(1) == 2,
                ;
            }
        }
    } else {
        let q = n / d;
        let r = n % d;
        vstd::arithmetic::div_mod::lemma_fundamental_div_mod(n as int, d as int);
        let h = half_even(n, d);
        assert((q + 1) * d == q * d + d && q * d == d * q) by (nonlinear_arith);
        assert(within_half(n as int, (h * d) as int, d as int));
        assert(n * pow2(0) == n && d * pow2(1) == 2 * d) by (nonlinear_arith)
            requires
                pow2(0) == 1,
                pow2(1) == 2,
        ;
        assert(low * (2 * d) == (2 * low) * d) by (nonlinear_arith);
    }
}

proof fn pow2_126()
    ensures
        pow2(126) == 0x4000_0000_0000_0000_0000_0000_0000_0000,
{
    lemma2_to64();
    lemma2_to64_rest();
    lemma_pow2_adds(63, 63);
    lemma_pow2_unfold(64);
}

fn round_half_even(n: u128, d: u128) -> (out: u128)
    requires
        0 < d <= 0x4000_0000_0000_0000_0000_0000_0000_0000,
        n < 0x8000_0000_0000_0000_0000_0000_0000_0000,
    ensures
        out == half_even(n as nat, d as nat),
{
    let q = n / d;
    let r = n % d;
    if 2 * r > d || (2 * r == d && q % 2 == 1) {
        q + 1
    } else {
        q
    }
}

/// The significand and the exponent of a number.
#[derive(Debug, Clone, Copy, PartialEq, Eq)]
pub struct Parts {
    pub m: u64,
    pub e: i128,
}

impl View for Parts {
    type V = Float;

    open spec fn view(&self) -> Float {
        Float { m: self.m as nat, e: self.e as int }
    }
}

/// How large an exponent may be for an operation to go through.
pub const WIDE: i128 = 0x1_0000_0000_0000_0000_0000_0000;

fn find_nearest(low: u128, n: u128, d: u128, e: i128) -> (out: Parts)
    requires
        low == SINGLE || low == DOUBLE,
        0 < n < 0x4000_0000_0000_0000_0000_0000_0000_0000,
        0 < d,
        d * low < 0x2000_0000_0000_0000_0000_0000_0000_0000 || d * low <= n,
        -0x6000_0000_0000_0000_0000_0000_0000_0000 <= e
            <= 0x6000_0000_0000_0000_0000_0000_0000_0000,
        n < d * low ==> e >= -0x6000_0000_0000_0000_0000_0000_0000_0000 + (d * low - n),
        n >= 2 * (d * low) ==> e <= 0x6000_0000_0000_0000_0000_0000_0000_0000 - (n - d * low),
    ensures
        out@ == nearest(low as nat, n as nat, d as nat, e as int),
    decreases
            if n < d * low {
                d * low - n
            } else if n >= 2 * (d * low) {
                n - d * low
            } else {
                0
            },
{
    let p = d * low;
    assert((2 * d) * low == 2 * p) by (nonlinear_arith)
        requires
            p == d * low,
    ;
    if n < p {
        find_nearest(low, 2 * n, d, e - 1)
    } else if n >= 2 * p {
        find_nearest(low, n, 2 * d, e + 1)
    } else {
        assert(d <= p) by (nonlinear_arith)
            requires
                p == d * low,
                low >= 1,
        ;
        proof {
            half_even_between(n as nat, d as nat, low as nat);
        }
        let q = round_half_even(n, d);
        if q == 2 * low {
            Parts { m: low as u64, e: e + 1 }
        } else {
            Parts { m: q as u64, e }
        }
    }
}

/// The number nearest to `n / d` times two to the power of `e`.
pub fn round(low: u128, n: u128, d: u128, e: i128) -> (out: Parts)
    requires
        low == SINGLE || low == DOUBLE,
        0 < n < 0x4000_0000_0000_0000_0000_0000_0000_0000,
        0 < d,
        d * low < 0x2000_0000_0000_0000_0000_0000_0000_0000,
        -2 * WIDE <= e <= 2 * WIDE,
    ensures
        out@ == nearest(low as nat, n as nat, d as nat, e as int),
        is_normal(low as nat, out@),
        out.m > 0,
        e - 126 <= out.e <= e + 127,
{
    proof {
        pow2_126();
        let p = (d * low) as nat;
        let two = pow2(126);
        assert(p > 0) by (nonlinear_arith)
            requires
                p == d * low,
                d > 0,
                low > 0,
        ;
        assert(p <= n * two && n < (2 * p) * two) by (nonlinear_arith)
            requires
                p < two,
                n < two,
                n > 0,
                p > 0,
        ;
        nearest_holds(low as nat, n as nat, d as nat, e as int, 126);
    }
    find_nearest(low, n, d, e)
}

pub(crate) fn two_to(k: u32) -> (out: u128)
    requires
        k <= 126,
    ensures
        out == pow2(k as nat),
        0 < out <= 0x4000_0000_0000_0000_0000_0000_0000_0000,
{
    let mut out: u128 = 1;
    let mut i: u32 = 0;
    proof {
        lemma2_to64();
        pow2_126();
    }
    while i < k
        invariant
            k <= 126,
            i <= k,
            out == pow2(i as nat),
            0 < out <= 0x4000_0000_0000_0000_0000_0000_0000_0000,
            pow2(126) == 0x4000_0000_0000_0000_0000_0000_0000_0000,
        decreases k - i,
    {
        proof {
            lemma_pow2_unfold((i + 1) as nat);
            if i + 1 < 126 {
                lemma_pow2_strictly_increases((i + 1) as nat, 126);
            }
        }
        out = 2 * out;
        i = i + 1;
    }
    out
}

/// The integer nearest to `m` times two to the power of `e`.
pub fn find_whole(m: u128, e: i128) -> (out: u128)
    requires
        m < 0x1_0000_0000_0000_0000,
        -126 <= e <= 60,
    ensures
        out == whole(Float { m: m as nat, e: e as int }),
{
    if e >= 0 {
        let two = two_to(e as u32);
        proof {
            lemma2_to64_rest();
            if e < 60 {
                lemma_pow2_strictly_increases(e as nat, 60);
            }
        }
        assert(m * two <= 0x1_0000_0000_0000_0000 * 0x1000_0000_0000_0000) by (nonlinear_arith)
            requires
                m < 0x1_0000_0000_0000_0000,
                two <= 0x1000_0000_0000_0000,
        ;
        m * two
    } else {
        let two = two_to((-e) as u32);
        round_half_even(m, two)
    }
}

/// The integer part of a number.
pub open spec fn floor(f: Float) -> nat {
    if f.e >= 0 {
        f.m * pow2(f.e as nat)
    } else {
        f.m / pow2((-f.e) as nat)
    }
}

/// The integer part of `m` times two to the power of `e`.
pub fn find_floor(m: u128, e: i128) -> (out: u128)
    requires
        m < 0x1_0000_0000_0000_0000,
        -126 <= e <= 60,
    ensures
        out == floor(Float { m: m as nat, e: e as int }),
{
    if e >= 0 {
        find_whole(m, e)
    } else {
        m / two_to((-e) as u32)
    }
}

} // verus!
