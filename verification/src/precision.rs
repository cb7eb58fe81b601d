//! What rounding to single precision keeps: the order of values, values that need no rounding,
//! and every other value up to half a step.

use crate::double::{
    double_magnitude, lemma_double_parts, Double, DOUBLE_BINADE, DOUBLE_INFINITY, DOUBLE_QUIET_NAN,
    DOUBLE_SIGN,
};
use crate::executor::SINGLE_ONE;
use crate::rounding::{
    exponent_of, lemma_exact, lemma_magnitude_increases, lemma_magnitude_parts,
    lemma_magnitude_step, lemma_nearest, lemma_same_ratio, magnitude, nearest,
    rounds_to, BINADE, INFINITY,
};
use crate::single::{Single, SIGN};
use vstd::arithmetic::power2::{lemma_pow2_adds, lemma_pow2_pos, lemma_pow2_unfold, pow2};
use vstd::prelude::*;

verus! {

/// Searches downwards for the pattern nearest to a value.
proof fn lemma_nearest_from(num: int, den: int, k: int)
    requires
        num >= 0,
        den > 0,
        0 <= k <= INFINITY,
        k < INFINITY ==> {
            ||| 2 * num < den * (magnitude(k) + magnitude(k + 1))
            ||| 2 * num == den * (magnitude(k) + magnitude(k + 1)) && k % 2 == 0
        },
    ensures
        exists|j: int| rounds_to(num, den, j),
    decreases k,
{
    if rounds_to(num, den, k) {
    } else {
        assert(k > 0);
        lemma_nearest_from(num, den, k - 1);
    }
}

/// Every value that is not negative has a nearest pattern.
pub proof fn lemma_nearest_exists(num: int, den: int)
    requires
        num >= 0,
        den > 0,
    ensures
        rounds_to(num, den, nearest(num, den)),
{
    lemma_nearest_from(num, den, INFINITY as int);
}

/// Rounding keeps the order: of two values that are not negative, the smaller one is not
/// rounded to the greater number.
pub proof fn law_rounding_keeps_order(n1: int, d1: int, n2: int, d2: int)
    requires
        0 <= n1,
        0 < d1,
        0 <= n2,
        0 < d2,
        n1 * d2 <= n2 * d1,
    ensures
        0 <= nearest(n1, d1) <= nearest(n2, d2) <= INFINITY,
{
    let a: int = nearest(n1, d1);
    let b: int = nearest(n2, d2);
    lemma_nearest_exists(n1, d1);
    lemma_nearest_exists(n2, d2);
    if b < a {
        let high: int = magnitude(a - 1) + magnitude(a);
        let low: int = magnitude(b) + magnitude(b + 1);
        lemma_magnitude_increases(b, a - 1);
        lemma_magnitude_increases(b + 1, a);
        assert(2 * n1 >= d1 * high && 2 * n2 <= d2 * low);
        assert(low == high && 2 * n1 == d1 * high && 2 * n2 == d2 * low) by (nonlinear_arith)
            requires
                2 * n1 >= d1 * high,
                2 * n2 <= d2 * low,
                low <= high,
                n1 * d2 <= n2 * d1,
                d1 > 0,
                d2 > 0,
        {
            assert((2 * n1) * d2 >= (d1 * high) * d2);
            assert((2 * n2) * d1 <= (d2 * low) * d1);
            assert((2 * n1) * d2 <= (2 * n2) * d1);
            assert((d1 * high) * d2 == (d1 * d2) * high);
            assert((d2 * low) * d1 == (d1 * d2) * low);
            assert((d1 * d2) * high <= (d1 * d2) * low);
            assert(d1 * d2 > 0);
            assert(high <= low);
            assert((2 * n1) * d2 == (d1 * high) * d2);
            assert((2 * n2) * d1 == (d2 * low) * d1);
        }
        assert(a == b + 1);
    }
}

/// A value that a pattern has is rounded to that pattern, whatever fraction it is written as.
pub proof fn lemma_exact_ratio(k: int, d: int)
    requires
        0 <= k <= INFINITY,
        d > 0,
    ensures
        nearest(magnitude(k) * d, d) == k,
{
    lemma_exact(k);
    assert(magnitude(k) * d == (magnitude(k) * d) * 1);
    lemma_same_ratio(magnitude(k), 1, magnitude(k) * d, d, k);
    lemma_nearest(magnitude(k) * d, d, k);
}

/// Sign and pattern of an assembled number.
pub proof fn lemma_signed(negative: bool, k: int)
    requires
        0 <= k < SIGN,
    ensures
        Single::signed(negative, k).pattern() == k,
        Single::signed(negative, k).negative() == negative,
{
}

/// Sign and pattern determine the number.
pub proof fn lemma_reassembled(s: Single)
    ensures
        Single::signed(s.negative(), s.pattern()) == s,
{
}

/// A value that is large enough has a significand of full length.
proof fn lemma_full_significand(m: int, e: nat) -> (r: (int, nat))
    requires
        0 < m < 2 * DOUBLE_BINADE,
        m * pow2(e) >= DOUBLE_BINADE,
    ensures
        DOUBLE_BINADE <= r.0 < 2 * DOUBLE_BINADE,
        r.1 <= e,
        r.0 * pow2(r.1) == m * pow2(e),
    decreases e,
{
    if m >= DOUBLE_BINADE {
        (m, e)
    } else {
        vstd::arithmetic::power2::lemma2_to64();
        assert(e > 0) by {
            if e == 0 {
                assert(m * pow2(e) == m) by (nonlinear_arith)
                    requires
                        pow2(e) == 1,
                ;
            }
        }
        lemma_pow2_unfold(e);
        let half: int = pow2((e - 1) as nat) as int;
        assert(m * (2 * half) == (2 * m) * half) by (nonlinear_arith);
        lemma_full_significand(2 * m, (e - 1) as nat)
    }
}

/// Every single has a double of its value.
pub proof fn lemma_widened_exists(s: Single)
    ensures
        Double::widened(s).widens(s),
{
    let k: int = s.pattern();
    let sign: int = if s.negative() {
        DOUBLE_SIGN as int
    } else {
        0
    };
    lemma_magnitude_parts(0, 0);
    if s.nan() {
        assert((Double { bits: DOUBLE_QUIET_NAN }).widens(s));
    } else if s.infinite() {
        assert((Double { bits: (DOUBLE_INFINITY + sign) as u64 }).widens(s));
    } else if k == 0 {
        lemma_double_parts(0, 0);
        assert(s.units() * pow2(925) == 0) by (nonlinear_arith)
            requires
                s.units() == 0,
        ;
        assert((Double { bits: sign as u64 }).widens(s));
    } else {
        let e: nat = exponent_of(k);
        let m: int = k - e * BINADE;
        let total: int = magnitude(k) * pow2(925);
        lemma_magnitude_increases(0, k);
        lemma_pow2_adds(e, 925);
        lemma_pow2_adds(52, 873);
        lemma_pow2_pos(873);
        vstd::arithmetic::power2::lemma2_to64();
        vstd::arithmetic::power2::lemma2_to64_rest();
        let pe: int = pow2(e) as int;
        let pc: int = pow2(925) as int;
        assert(m * (pe * pc) == (m * pe) * pc) by (nonlinear_arith);
        assert(total >= DOUBLE_BINADE) by (nonlinear_arith)
            requires
                total == magnitude(k) * pc,
                magnitude(k) >= 1,
                pc == DOUBLE_BINADE * pow2(873),
                pow2(873) >= 1,
        ;
        assert(0 < m < 2 * BINADE);
        let (full, f) = lemma_full_significand(m, e + 925);
        lemma_double_parts(f, full);
        assert((-magnitude(k)) * pc == -total) by (nonlinear_arith)
            requires
                total == magnitude(k) * pc,
        ;
        let d: Double = Double { bits: (f * DOUBLE_BINADE + full + sign) as u64 };
        assert(d.pattern() == f * DOUBLE_BINADE + full);
        assert(d.widens(s));
    }
}

/// A single written in double precision and read back is the same single.
pub proof fn law_widening_loses_nothing(s: Single)
    requires
        !s.nan(),
    ensures
        Double::widened(s).narrowed() == s,
{
    lemma_widened_exists(s);
    let d: Double = Double::widened(s);
    let k: int = s.pattern();
    lemma_reassembled(s);
    if !s.infinite() {
        lemma_pow2_pos(925);
        let p: int = pow2(925) as int;
        assert((-magnitude(k)) * p == -(magnitude(k) * p)) by (nonlinear_arith);
        assert(double_magnitude(d.pattern()) == magnitude(k) * p);
        lemma_exact_ratio(k, p);
    }
}

/// 1 is 2^149 units.
pub proof fn lemma_one()
    ensures
        magnitude(SINGLE_ONE as int) == pow2(149),
        pow2(149) > 0,
        !(Single { bits: SINGLE_ONE }).nan(),
        !(Single { bits: SINGLE_ONE }).infinite(),
        (Single { bits: SINGLE_ONE }).pattern() == SINGLE_ONE,
        !(Single { bits: SINGLE_ONE }).negative(),
{
    lemma_magnitude_parts(126, BINADE as int);
    lemma_pow2_adds(23, 126);
    lemma_pow2_pos(149);
    vstd::arithmetic::power2::lemma2_to64();
}

/// Division and multiplication by 1 change nothing.
pub proof fn lemma_times_one(s: Single)
    requires
        !s.nan(),
    ensures
        s.quotient(Single { bits: SINGLE_ONE }) == s,
        s.product(Single { bits: SINGLE_ONE }) == s,
{
    lemma_one();
    lemma_reassembled(s);
    if !s.infinite() {
        lemma_exact_ratio(s.pattern(), pow2(149) as int);
    }
}

/// Up to 2^24 times a power of two, rounding is off by at most half that power.
pub proof fn lemma_off_by_half(v: int, e: nat)
    requires
        e <= 64,
        0 <= v <= pow2(173 + e),
    ensures
        0 <= nearest(v, 1) < INFINITY,
        2 * (magnitude(nearest(v, 1)) - v) <= pow2(149 + e),
        2 * (v - magnitude(nearest(v, 1))) <= pow2(149 + e),
{
    let k: int = nearest(v, 1);
    let top: int = (151 + e) * BINADE;
    lemma_pow2_pos(149 + e);
    lemma_magnitude_parts(0, 0);
    lemma_magnitude_parts(150 + e, BINADE as int);
    lemma_pow2_adds(23, 150 + e);
    vstd::arithmetic::power2::lemma2_to64();
    assert(magnitude(top) == pow2(173 + e));
    lemma_exact(top);
    law_rounding_keeps_order(v, 1, magnitude(top), 1);
    lemma_nearest_exists(v, 1);
    if k > 0 {
        lemma_step_bound(k - 1, e);
    }
    if k < top {
        lemma_step_bound(k, e);
    }
}

/// Below 2^24 times a power of two, neighbouring numbers are at most that power apart.
proof fn lemma_step_bound(k: int, e: nat)
    requires
        0 <= k < (151 + e) * BINADE,
    ensures
        magnitude(k + 1) - magnitude(k) <= pow2(149 + e),
{
    lemma_magnitude_step(k);
    assert(exponent_of(k) <= 149 + e);
    if exponent_of(k) < 149 + e {
        vstd::arithmetic::power2::lemma_pow2_strictly_increases(exponent_of(k), 149 + e);
    }
}

/// A sum of an amount of at most 2^24 times a power of two is finite, and off by at most half
/// that power.
pub proof fn law_sum_off_by_half(a: Single, b: Single, e: nat)
    requires
        !a.nan() && !a.infinite(),
        !b.nan() && !b.infinite(),
        e <= 64,
        -pow2(173 + e) <= a.units() + b.units() <= pow2(173 + e),
    ensures
        !a.sum(b).nan() && !a.sum(b).infinite(),
        2 * (a.sum(b).units() - (a.units() + b.units())) <= pow2(149 + e),
        2 * ((a.units() + b.units()) - a.sum(b).units()) <= pow2(149 + e),
{
    let v: int = a.units() + b.units();
    lemma_magnitude_parts(0, 0);
    if v == 0 {
        lemma_pow2_pos(149 + e);
        lemma_signed(a.negative() && b.negative(), 0);
    } else if v < 0 {
        lemma_off_by_half(-v, e);
        lemma_signed(true, nearest(-v, 1));
    } else {
        lemma_off_by_half(v, e);
        lemma_signed(false, nearest(v, 1));
    }
}

/// The rounded sum is not below a number that the exact sum is not below.
pub proof fn law_sum_keeps_order(a: Single, b: Single, c: Single)
    requires
        !a.nan() && !a.infinite(),
        !b.nan() && !b.infinite(),
        !c.nan(),
        a.units() + b.units() >= c.units(),
    ensures
        !a.sum(b).nan(),
        a.sum(b).units() >= c.units(),
{
    let v: int = a.units() + b.units();
    lemma_magnitude_parts(0, 0);
    lemma_magnitude_increases(0, c.pattern());
    lemma_exact(c.pattern());
    if v == 0 {
        lemma_signed(a.negative() && b.negative(), 0);
    } else if v < 0 {
        law_rounding_keeps_order(-v, 1, magnitude(c.pattern()), 1);
        lemma_signed(true, nearest(-v, 1));
        lemma_magnitude_increases(nearest(-v, 1), c.pattern());
    } else {
        law_rounding_keeps_order(v, 1, v, 1);
        lemma_signed(false, nearest(v, 1));
        lemma_magnitude_increases(0, nearest(v, 1));
        if !c.negative() {
            law_rounding_keeps_order(magnitude(c.pattern()), 1, v, 1);
            lemma_magnitude_increases(c.pattern(), nearest(v, 1));
        }
    }
}

/// A value that is not rounded to infinity, and not below the least number of full precision, is
/// rounded down by at most one part in 2^24.
pub proof fn lemma_relative_error(num: int, den: int)
    requires
        den > 0,
        num >= den * 0x80_0000,
        nearest(num, den) < INFINITY,
    ensures
        0x80_0000 <= nearest(num, den),
        0x100_0000 * (num - den * magnitude(nearest(num, den))) <= num,
{
    let k: int = nearest(num, den);
    assert(den * 0x80_0000 > 0) by (nonlinear_arith)
        requires
            den > 0,
    ;
    lemma_pow2_pos(0);
    vstd::arithmetic::power2::lemma2_to64();
    lemma_magnitude_parts(0, BINADE as int);
    assert(magnitude(BINADE as int) == BINADE);
    lemma_exact_ratio(BINADE as int, den);
    assert(magnitude(BINADE as int) * den == den * 0x80_0000) by (nonlinear_arith)
        requires
            magnitude(BINADE as int) == 0x80_0000,
    ;
    let least: int = magnitude(BINADE as int) * den;
    assert(least * den <= num * den) by (nonlinear_arith)
        requires
            least <= num,
            den > 0,
    ;
    law_rounding_keeps_order(least, den, num, den);
    lemma_nearest_exists(num, den);
    let e: nat = exponent_of(k);
    let p: int = pow2(e) as int;
    let m: int = k - e * BINADE;
    lemma_magnitude_step(k);
    assert(m >= BINADE);
    let v: int = magnitude(k);
    assert(v >= 0x80_0000 * p) by (nonlinear_arith)
        requires
            v == m * p,
            m >= 0x80_0000,
            p >= 1,
    ;
    assert(2 * num <= den * (2 * v + p));
    assert(0x100_0000 * (num - den * v) <= num) by (nonlinear_arith)
        requires
            2 * num <= den * (2 * v + p),
            v >= 0x80_0000 * p,
            den > 0,
            p >= 1,
            num >= 0,
    {
        assert(den * (2 * v + p) == 2 * (den * v) + den * p);
        assert(den * v >= 0x80_0000 * (den * p));
        assert(den * p > 0);
        if num >= den * v {
            assert(2 * (num - den * v) <= den * p);
        }
    }
}

/// The opposite of a number has the opposite value.
pub proof fn lemma_negated(s: Single)
    ensures
        s.negated().units() == -s.units(),
        s.negated().nan() == s.nan(),
        s.negated().infinite() == s.infinite(),
{
    lemma_signed(!s.negative(), s.pattern());
}

} // verus!
