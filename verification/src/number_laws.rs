//! What the numbers and their arithmetic are, in terms of exact values.
//!
//! The value of a single is a whole number of units of 2^-149, that of a double a whole number of
//! units of 2^-1074. An operation gives the single whose value is nearest to the exact result.

use crate::double::{
    double_exponent_of, double_magnitude, lemma_double_increases, lemma_double_parts, Double,
};
use crate::integral::{rounded_down, rounded_half_away, rounded_up};
use crate::precision::{
    lemma_nearest_exists, lemma_negated, lemma_signed, lemma_widened_exists,
};
use crate::rounding::{
    exponent_of, lemma_magnitude_increases, lemma_magnitude_parts, magnitude, nearest, BINADE,
    INFINITY,
};
use crate::single::Single;
use vstd::arithmetic::power2::{lemma_pow2_pos, lemma_pow2_unfold, pow2};
use vstd::prelude::*;
use vstd::std_specs::cmp::PartialEqSpec;

verus! {

/// The values of the patterns: the first 2^24 count up by one unit, and every 2^23 patterns
/// further on the values are twice as large.
pub proof fn law_values_of_patterns(k: int)
    requires
        0 <= k,
    ensures
        k < 0x100_0000 ==> magnitude(k) == k,
        k >= 0x80_0000 ==> magnitude(k + 0x80_0000) == 2 * magnitude(k),
{
    vstd::arithmetic::power2::lemma2_to64();
    if k < 0x100_0000 {
        lemma_magnitude_parts(0, k);
        assert(k * pow2(0) == k) by (nonlinear_arith)
            requires
                pow2(0) == 1,
        ;
    }
    if k >= 0x80_0000 {
        let s: nat = exponent_of(k);
        let m: int = k - s * BINADE;
        lemma_magnitude_parts(s, m);
        lemma_magnitude_parts(s + 1, m);
        lemma_pow2_unfold(s + 1);
        assert((s + 1) * BINADE + m == k + 0x80_0000);
        assert(m * (2 * pow2(s)) == 2 * (m * pow2(s))) by (nonlinear_arith);
    }
}

/// The values of the patterns of doubles: the first 2^53 count up by one unit, and every 2^52
/// patterns further on the values are twice as large.
pub proof fn law_values_of_double_patterns(k: int)
    requires
        0 <= k,
    ensures
        k < 0x20_0000_0000_0000 ==> double_magnitude(k) == k,
        k >= 0x10_0000_0000_0000 ==> double_magnitude(k + 0x10_0000_0000_0000) == 2
            * double_magnitude(k),
{
    vstd::arithmetic::power2::lemma2_to64();
    if k < 0x20_0000_0000_0000 {
        lemma_double_parts(0, k);
        assert(k * pow2(0) == k) by (nonlinear_arith)
            requires
                pow2(0) == 1,
        ;
    }
    if k >= 0x10_0000_0000_0000 {
        let s: nat = double_exponent_of(k);
        let m: int = k - s * 0x10_0000_0000_0000;
        lemma_double_parts(s, m);
        lemma_double_parts(s + 1, m);
        lemma_pow2_unfold(s + 1);
        assert((s + 1) * 0x10_0000_0000_0000 + m == k + 0x10_0000_0000_0000);
        assert(m * (2 * pow2(s)) == 2 * (m * pow2(s))) by (nonlinear_arith);
    }
}

/// How a single is read from its bits: the highest bit is the sign, the others are the pattern;
/// what lies above the pattern of infinity is not a number.
pub proof fn law_reading_of_singles(s: Single)
    ensures
        s.bits < 0x8000_0000 ==> s.pattern() == s.bits && !s.negative() && s.units() == magnitude(
            s.bits as int,
        ),
        s.bits >= 0x8000_0000 ==> s.pattern() == s.bits - 0x8000_0000 && s.negative() && s.units()
            == -magnitude(s.bits - 0x8000_0000),
        s.nan() <==> s.pattern() > 0x7f80_0000,
        s.infinite() <==> s.pattern() == 0x7f80_0000,
{
}

/// How a double is read from its bits.
pub proof fn law_reading_of_doubles(d: Double)
    ensures
        d.bits < 0x8000_0000_0000_0000 ==> d.pattern() == d.bits && !d.negative() && d.units()
            == double_magnitude(d.bits as int),
        d.bits >= 0x8000_0000_0000_0000 ==> d.pattern() == d.bits - 0x8000_0000_0000_0000
            && d.negative() && d.units() == -double_magnitude(d.bits - 0x8000_0000_0000_0000),
        d.nan() <==> d.pattern() > 0x7ff0_0000_0000_0000,
        d.infinite() <==> d.pattern() == 0x7ff0_0000_0000_0000,
{
}

/// How far apart two values are.
spec fn apart(a: int, b: int) -> int {
    if a <= b {
        b - a
    } else {
        a - b
    }
}

/// No pattern has a value nearer to a ratio than the one that the ratio is rounded to; and if
/// another one is as near, that one has an even pattern.
proof fn lemma_nearest_is_nearest(num: int, den: int, c: int)
    requires
        num >= 0,
        den > 0,
        0 <= c <= INFINITY,
    ensures
        0 <= nearest(num, den) <= INFINITY,
        apart(den * magnitude(nearest(num, den)), num) <= apart(den * magnitude(c), num),
        apart(den * magnitude(nearest(num, den)), num) == apart(den * magnitude(c), num) && c
            != nearest(num, den) ==> nearest(num, den) % 2 == 0,
{
    let k: int = nearest(num, den);
    lemma_nearest_exists(num, den);
    let vk: int = magnitude(k);
    let vc: int = magnitude(c);
    if c < k {
        let below: int = magnitude(k - 1);
        lemma_magnitude_increases(c, k - 1);
        lemma_magnitude_increases(k - 1, k);
        assert(den * (below + vk) == den * below + den * vk) by (nonlinear_arith);
        assert(den * vc <= den * below && den * below < den * vk) by (nonlinear_arith)
            requires
                den > 0,
                vc <= below,
                below < vk,
        ;
    } else if c > k {
        let above: int = magnitude(k + 1);
        lemma_magnitude_increases(k + 1, c);
        lemma_magnitude_increases(k, k + 1);
        assert(den * (vk + above) == den * vk + den * above) by (nonlinear_arith);
        assert(den * vc >= den * above && den * above > den * vk) by (nonlinear_arith)
            requires
                den > 0,
                vc >= above,
                above > vk,
        ;
    }
}

/// The same for numbers with a sign.
proof fn lemma_signed_nearest(negative: bool, num: int, den: int, c: Single)
    requires
        num >= 0,
        den > 0,
        !c.nan(),
    ensures
        ({
            let s: Single = Single::signed(negative, nearest(num, den));
            let exact: int = if negative {
                -num
            } else {
                num
            };
            &&& !s.nan()
            &&& s.negative() == negative
            &&& apart(den * s.units(), exact) <= apart(den * c.units(), exact)
            &&& apart(den * s.units(), exact) == apart(den * c.units(), exact) && c.units()
                != s.units() ==> s.pattern() % 2 == 0
        }),
{
    let k: int = nearest(num, den);
    let v: int = magnitude(c.pattern());
    lemma_nearest_is_nearest(num, den, c.pattern());
    lemma_nearest_is_nearest(num, den, 0);
    lemma_signed(negative, k);
    lemma_magnitude_parts(0, 0);
    lemma_magnitude_increases(0, c.pattern());
    assert(den * (-v) == -(den * v)) by (nonlinear_arith);
    assert(den * (-magnitude(k)) == -(den * magnitude(k))) by (nonlinear_arith);
    assert(den * 0 == 0);
    assert(den * v >= 0) by (nonlinear_arith)
        requires
            den > 0,
            v >= 0,
    ;
    if c.negative() != negative && v > 0 {
        assert(den * v > 0) by (nonlinear_arith)
            requires
                den > 0,
                v > 0,
        ;
    }
}

/// The sum of two finite numbers is nearest to their exact sum: no number is nearer, and if one is
/// as near, the sum is the one with the even pattern. An exact zero is positive unless both are
/// negative.
pub proof fn law_sum_is_nearest(a: Single, b: Single, c: Single)
    requires
        !a.nan() && !a.infinite(),
        !b.nan() && !b.infinite(),
        !c.nan(),
    ensures
        ({
            let s: Single = a.sum(b);
            let exact: int = a.units() + b.units();
            &&& !s.nan()
            &&& -(c.units() - exact) <= s.units() - exact <= c.units() - exact || c.units()
                - exact <= s.units() - exact <= -(c.units() - exact)
            &&& c.units() != s.units() && (c.units() - exact == s.units() - exact || c.units()
                - exact == -(s.units() - exact)) ==> s.pattern() % 2 == 0
            &&& exact < 0 ==> s.negative()
            &&& exact > 0 ==> !s.negative()
            &&& exact == 0 ==> s.pattern() == 0 && (s.negative() <==> a.negative() && b.negative())
        }),
{
    let exact: int = a.units() + b.units();
    lemma_magnitude_parts(0, 0);
    lemma_signed(a.negative() && b.negative(), 0);
    if exact < 0 {
        lemma_signed_nearest(true, -exact, 1, c);
    } else {
        lemma_signed_nearest(false, exact, 1, c);
    }
    if exact == 0 {
        lemma_magnitude_increases(0, c.pattern());
    }
}

/// Sums with what is infinite or not a number.
pub proof fn law_special_sums(a: Single, b: Single)
    ensures
        a.nan() || b.nan() ==> a.sum(b).nan(),
        a.infinite() && b.infinite() && a.negative() != b.negative() ==> a.sum(b).nan(),
        a.infinite() && !b.nan() && !(b.infinite() && a.negative() != b.negative()) ==> a.sum(b)
            == a,
        b.infinite() && !a.nan() && !(a.infinite() && a.negative() != b.negative()) ==> a.sum(
            b,
        ).units() == b.units(),
{
}

/// The difference is the sum with the opposite number, and the opposite of a number has the
/// opposite value and sign.
pub proof fn law_difference_and_opposite(a: Single, b: Single)
    ensures
        a.difference(b) == a.sum(b.negated()),
        b.negated().units() == -b.units(),
        b.negated().negative() == !b.negative(),
        b.negated().pattern() == b.pattern(),
{
    lemma_negated(b);
    lemma_signed(!b.negative(), b.pattern());
}

/// The product of two finite numbers is nearest to their exact product.
pub proof fn law_product_is_nearest(a: Single, b: Single, c: Single)
    requires
        !a.nan() && !a.infinite(),
        !b.nan() && !b.infinite(),
        !c.nan(),
    ensures
        ({
            let s: Single = a.product(b);
            let exact: int = a.units() * b.units();
            let here: int = pow2(149) * s.units() - exact;
            let there: int = pow2(149) * c.units() - exact;
            &&& !s.nan()
            &&& -there <= here <= there || there <= here <= -there
            &&& c.units() != s.units() && (here == there || here == -there) ==> s.pattern() % 2
                == 0
            &&& s.negative() <==> a.negative() != b.negative()
        }),
{
    let negative: bool = a.negative() != b.negative();
    let ma: int = magnitude(a.pattern());
    let mb: int = magnitude(b.pattern());
    lemma_pow2_pos(149);
    lemma_magnitude_parts(0, 0);
    lemma_magnitude_increases(0, a.pattern());
    lemma_magnitude_increases(0, b.pattern());
    assert(ma * mb >= 0) by (nonlinear_arith)
        requires
            ma >= 0,
            mb >= 0,
    ;
    assert((-ma) * mb == -(ma * mb)) by (nonlinear_arith);
    assert(ma * (-mb) == -(ma * mb)) by (nonlinear_arith);
    assert((-ma) * (-mb) == ma * mb) by (nonlinear_arith);
    lemma_signed_nearest(negative, ma * mb, pow2(149) as int, c);
}

/// The quotient of two finite numbers, the second of which is not zero, is nearest to their exact
/// quotient: multiplied by the divisor, no number comes nearer to the dividend.
pub proof fn law_quotient_is_nearest(a: Single, b: Single, c: Single)
    requires
        !a.nan() && !a.infinite(),
        !b.nan() && !b.infinite(),
        b.pattern() != 0,
        !c.nan(),
    ensures
        ({
            let s: Single = a.quotient(b);
            let exact: int = a.units() * pow2(149);
            let here: int = b.units() * s.units() - exact;
            let there: int = b.units() * c.units() - exact;
            &&& !s.nan()
            &&& -there <= here <= there || there <= here <= -there
            &&& c.units() != s.units() && (here == there || here == -there) ==> s.pattern() % 2
                == 0
            &&& s.negative() <==> a.negative() != b.negative()
        }),
{
    let negative: bool = a.negative() != b.negative();
    let ma: int = magnitude(a.pattern());
    let mb: int = magnitude(b.pattern());
    let u: int = pow2(149) as int;
    lemma_pow2_pos(149);
    lemma_magnitude_parts(0, 0);
    lemma_magnitude_increases(0, a.pattern());
    lemma_magnitude_increases(0, b.pattern());
    assert(ma * u >= 0) by (nonlinear_arith)
        requires
            ma >= 0,
            u > 0,
    ;
    assert((-ma) * u == -(ma * u)) by (nonlinear_arith);
    lemma_signed_nearest(negative, ma * u, mb, c);
    let s: Single = a.quotient(b);
    assert((-mb) * s.units() == -(mb * s.units())) by (nonlinear_arith);
    assert((-mb) * c.units() == -(mb * c.units())) by (nonlinear_arith);
}

/// Quotients and products with what is zero, infinite or not a number.
pub proof fn law_special_quotients(a: Single, b: Single)
    ensures
        a.nan() || b.nan() ==> a.quotient(b).nan() && a.product(b).nan(),
        a.infinite() && b.infinite() ==> a.quotient(b).nan(),
        a.pattern() == 0 && b.pattern() == 0 ==> a.quotient(b).nan(),
        a.infinite() && !b.nan() && !b.infinite() ==> a.quotient(b).infinite() && (a.quotient(
            b,
        ).negative() <==> a.negative() != b.negative()),
        b.infinite() && !a.nan() && !a.infinite() ==> a.quotient(b).pattern() == 0,
        b.pattern() == 0 && a.pattern() != 0 && !a.nan() ==> a.quotient(b).infinite() && (
        a.quotient(b).negative() <==> a.negative() != b.negative()),
        a.infinite() && b.pattern() == 0 || a.pattern() == 0 && b.infinite() ==> a.product(b).nan(),
        (a.infinite() && b.pattern() != 0 || b.infinite() && a.pattern() != 0) && !a.nan()
            && !b.nan() ==> a.product(b).infinite() && (a.product(b).negative() <==> a.negative()
            != b.negative()),
{
    lemma_signed(true, INFINITY as int);
    lemma_signed(false, INFINITY as int);
    lemma_signed(true, 0);
    lemma_signed(false, 0);
}

/// The single of an integer is nearest to it.
pub proof fn law_integer_is_nearest(n: int, c: Single)
    requires
        0 <= n,
        !c.nan(),
    ensures
        ({
            let s: Single = Single::of_integer(n);
            let here: int = s.units() - n * pow2(149);
            let there: int = c.units() - n * pow2(149);
            &&& !s.nan() && !s.negative()
            &&& -there <= here <= there || there <= here <= -there
            &&& c.units() != s.units() && (here == there || here == -there) ==> s.pattern() % 2
                == 0
        }),
{
    lemma_pow2_pos(149);
    assert(n * pow2(149) >= 0) by (nonlinear_arith)
        requires
            n >= 0,
            pow2(149) > 0,
    ;
    lemma_signed_nearest(false, n * pow2(149), 1, c);
}

/// The single nearest to a finite double: a unit of singles is 2^925 units of doubles.
pub proof fn law_narrowed_is_nearest(d: Double, c: Single)
    requires
        !d.nan() && !d.infinite(),
        !c.nan(),
    ensures
        ({
            let s: Single = d.narrowed();
            let here: int = pow2(925) * s.units() - d.units();
            let there: int = pow2(925) * c.units() - d.units();
            &&& !s.nan()
            &&& -there <= here <= there || there <= here <= -there
            &&& c.units() != s.units() && (here == there || here == -there) ==> s.pattern() % 2
                == 0
            &&& s.negative() == d.negative()
        }),
{
    lemma_pow2_pos(925);
    lemma_double_increases(d.pattern(), d.pattern());
    lemma_signed_nearest(
        d.negative(),
        double_magnitude(d.pattern()),
        pow2(925) as int,
        c,
    );
}

/// What is infinite or not a number stays so when it is narrowed, and a single that is widened
/// keeps its value and its sign.
pub proof fn law_special_conversions(d: Double, s: Single)
    ensures
        d.nan() ==> d.narrowed().nan(),
        d.infinite() ==> d.narrowed().infinite() && d.narrowed().negative() == d.negative(),
        s.nan() ==> Double::widened(s).nan(),
        s.infinite() ==> Double::widened(s).infinite() && Double::widened(s).negative()
            == s.negative(),
        !s.nan() && !s.infinite() ==> !Double::widened(s).nan() && !Double::widened(s).infinite()
            && Double::widened(s).units() == s.units() * pow2(925) && Double::widened(s).negative()
            == s.negative(),
{
    lemma_widened_exists(s);
    lemma_signed(true, INFINITY as int);
    lemma_signed(false, INFINITY as int);
}

/// Comparing: below is less in value, the lesser and the greater are one of the two and bound both,
/// and what is not a number is passed over.
pub proof fn law_comparisons(a: Single, b: Single)
    ensures
        a.below(b) <==> !a.nan() && !b.nan() && a.units() < b.units(),
        a.lesser(b) == a || a.lesser(b) == b,
        a.greater(b) == a || a.greater(b) == b,
        !a.nan() && !b.nan() ==> a.lesser(b).units() <= a.units() && a.lesser(b).units()
            <= b.units(),
        !a.nan() && !b.nan() ==> a.greater(b).units() >= a.units() && a.greater(b).units()
            >= b.units(),
        a.nan() ==> a.lesser(b) == b && a.greater(b) == b,
        b.nan() ==> a.lesser(b) == a && a.greater(b) == a || a.nan(),
{
}

/// Equality: two singles, and two doubles, are equal where both are numbers of the same value.
pub proof fn law_equality(a: Single, b: Single, c: Double, d: Double)
    ensures
        a.eq_spec(&b) <==> !a.nan() && !b.nan() && a.units() == b.units(),
        c.eq_spec(&d) <==> !c.nan() && !d.nan() && c.units() == d.units(),
{
}

/// The index of a number rounded down: the integer whose cell the number lies in, 0 for what is
/// negative or not a number, and the largest index for what is beyond it.
pub proof fn law_floor_index(s: Single)
    ensures
        s.nan() ==> s.floor_index() == 0,
        !s.nan() && s.units() < 0 ==> s.floor_index() == 0,
        !s.nan() && s.units() >= 0 ==> 0 <= s.floor_index() <= usize::MAX && s.floor_index()
            * pow2(149) <= s.units() && (s.floor_index() < usize::MAX ==> s.units() < (
        s.floor_index() + 1) * pow2(149)),
{
    let u: int = pow2(149) as int;
    let v: int = s.units();
    let q: int = rounded_down(v, 149);
    lemma_pow2_pos(149);
    assert(q * u <= v && v < (q + 1) * u) by (nonlinear_arith)
        requires
            q == v / u,
            u > 0,
    ;
    if v >= 0 {
        assert(q >= 0) by (nonlinear_arith)
            requires
                v < (q + 1) * u,
                v >= 0,
                u > 0,
        ;
        let f: int = s.floor_index();
        assert(f * u <= q * u) by (nonlinear_arith)
            requires
                f <= q,
                u > 0,
        ;
    } else {
        assert(q < 0) by (nonlinear_arith)
            requires
                q * u <= v,
                v < 0,
                u > 0,
        ;
    }
}

/// The index of a number rounded up: the least integer that is not below it, 0 for what is not
/// above zero or not a number, and the largest index for what is beyond it.
pub proof fn law_ceil_index(s: Single, limit: int)
    requires
        limit >= 0,
    ensures
        s.nan() ==> s.ceil_index(limit) == 0,
        !s.nan() && s.units() <= 0 ==> s.ceil_index(limit) == 0,
        !s.nan() && s.units() > 0 ==> 0 <= s.ceil_index(limit) <= limit && (s.ceil_index(limit)
            - 1) * pow2(149) < s.units() && (s.ceil_index(limit) < limit ==> s.units()
            <= s.ceil_index(limit) * pow2(149)),
{
    let u: int = pow2(149) as int;
    let v: int = s.units();
    let q: int = rounded_up(v, 149);
    lemma_pow2_pos(149);
    assert((q - 1) * u < v && v <= q * u) by (nonlinear_arith)
        requires
            q == -((-v) / u),
            u > 0,
    ;
    if v > 0 {
        assert(q > 0) by (nonlinear_arith)
            requires
                v <= q * u,
                v > 0,
                u > 0,
        ;
        let f: int = s.ceil_index(limit);
        assert((f - 1) * u <= (q - 1) * u) by (nonlinear_arith)
            requires
                f <= q,
                u > 0,
        ;
    } else {
        assert(q <= 0) by (nonlinear_arith)
            requires
                (q - 1) * u < v,
                v <= 0,
                u > 0,
        ;
    }
}

/// The index that a double is rounded to: the nearest integer, the upper one of two that are
/// equally near; 0 for what is negative or not a number, and the largest index for what is beyond
/// it.
pub proof fn law_round_index(d: Double)
    ensures
        d.nan() ==> d.round_index() == 0,
        !d.nan() && d.units() < 0 ==> d.round_index() == 0,
        !d.nan() && d.units() >= 0 ==> 0 <= d.round_index() <= usize::MAX && (2 * d.round_index()
            - 1) * pow2(1074) <= 2 * d.units() && (d.round_index() < usize::MAX ==> 2 * d.units()
            < (2 * d.round_index() + 1) * pow2(1074)),
{
    let u: int = pow2(1074) as int;
    let v: int = d.units();
    lemma_pow2_pos(1074);
    let q: int = rounded_half_away(v, 1074);
    if v >= 0 {
        assert((2 * q - 1) * u <= 2 * v && 2 * v < (2 * q + 1) * u) by (nonlinear_arith)
            requires
                q == (2 * v + u) / (2 * u),
                u > 0,
        {
            let t: int = 2 * u;
            assert(q * t <= 2 * v + u && 2 * v + u < (q + 1) * t);
        }
        assert(q >= 0) by (nonlinear_arith)
            requires
                2 * v < (2 * q + 1) * u,
                v >= 0,
                u > 0,
        ;
        let f: int = d.round_index();
        assert((2 * f - 1) * u <= (2 * q - 1) * u) by (nonlinear_arith)
            requires
                f <= q,
                u > 0,
        ;
    } else {
        let w: int = -2 * v + u;
        assert(w / (2 * u) >= 0) by (nonlinear_arith)
            requires
                w > 0,
                u > 0,
        ;
    }
}

} // verus!
