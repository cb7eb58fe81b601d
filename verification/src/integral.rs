//! From binary fractions to integers: rounding down, up and to the nearest, with saturation.

use crate::single::power_of_two;
use vstd::arithmetic::div_mod::lemma_fundamental_div_mod_converse;
use vstd::arithmetic::power2::{
    lemma_pow2_adds, lemma_pow2_pos, lemma_pow2_strictly_increases, pow2,
};
use vstd::prelude::*;

verus! {

/// The greatest integer that is not above `units / 2^scale`.
pub open spec fn rounded_down(units: int, scale: nat) -> int {
    units / pow2(scale) as int
}

/// The least integer that is not below `units / 2^scale`.
pub open spec fn rounded_up(units: int, scale: nat) -> int {
    -((-units) / pow2(scale) as int)
}

/// The integer nearest to `units / 2^scale`, halves away from zero.
pub open spec fn rounded_half_away(units: int, scale: nat) -> int {
    if units >= 0 {
        (2 * units + pow2(scale)) / (2 * pow2(scale) as int)
    } else {
        -((-2 * units + pow2(scale)) / (2 * pow2(scale) as int))
    }
}

/// What a cast to an unsigned integer with the maximum `limit` gives.
pub open spec fn saturated(value: int, limit: int) -> int {
    if value < 0 {
        0
    } else if value > limit {
        limit
    } else {
        value
    }
}

/// A common factor of numerator and denominator leaves the quotient alone.
proof fn lemma_common_factor(a: int, t: int, p: int)
    requires
        t > 0,
        p > 0,
    ensures
        (a * p) / (t * p) == a / t,
{
    let q: int = a / t;
    let r: int = a % t;
    assert(a == t * q + r && 0 <= r < t) by (nonlinear_arith)
        requires
            t > 0,
            q == a / t,
            r == a % t,
    ;
    assert(a * p == q * (t * p) + r * p) by (nonlinear_arith)
        requires
            a == t * q + r,
    ;
    assert(0 <= r * p < t * p) by (nonlinear_arith)
        requires
            0 <= r < t,
            p > 0,
    ;
    lemma_fundamental_div_mod_converse(a * p, t * p, q, r * p);
}

/// A whole multiple of the unit is all three roundings of itself.
proof fn lemma_whole(m: int, e: nat, scale: nat)
    requires
        m >= 0,
        e >= scale,
    ensures
        rounded_down(m * pow2(e), scale) == m * pow2((e - scale) as nat),
        rounded_up(m * pow2(e), scale) == m * pow2((e - scale) as nat),
        rounded_half_away(m * pow2(e), scale) == m * pow2((e - scale) as nat),
{
    let p: int = pow2(scale) as int;
    let v: int = m * pow2((e - scale) as nat);
    lemma_pow2_pos(scale);
    lemma_pow2_pos((e - scale) as nat);
    lemma_pow2_adds((e - scale) as nat, scale);
    assert(m * pow2(e) == v * p) by (nonlinear_arith)
        requires
            pow2(e) == pow2((e - scale) as nat) * p,
            v == m * pow2((e - scale) as nat),
    ;
    assert(v >= 0) by (nonlinear_arith)
        requires
            v == m * pow2((e - scale) as nat),
            m >= 0,
    ;
    assert(v * p >= 0) by (nonlinear_arith)
        requires
            v >= 0,
            p > 0,
    ;
    lemma_fundamental_div_mod_converse(v * p, p, v, 0);
    assert(-(v * p) == (-v) * p) by (nonlinear_arith);
    lemma_fundamental_div_mod_converse(-(v * p), p, -v, 0);
    assert(2 * (v * p) + p == v * (2 * p) + p) by (nonlinear_arith);
    lemma_fundamental_div_mod_converse(2 * (v * p) + p, 2 * p, v, p);
}

/// A fraction may be reduced by the power of two in its numerator.
proof fn lemma_fraction(m: int, e: nat, scale: nat)
    requires
        m >= 0,
        e < scale,
    ensures
        rounded_down(m * pow2(e), scale) == m / pow2((scale - e) as nat) as int,
        rounded_up(m * pow2(e), scale) == -((-m) / pow2((scale - e) as nat) as int),
        rounded_half_away(m * pow2(e), scale) == (2 * m + pow2((scale - e) as nat)) / (2 * pow2(
            (scale - e) as nat,
        ) as int),
{
    let p: int = pow2(e) as int;
    let t: int = pow2((scale - e) as nat) as int;
    lemma_pow2_pos(e);
    lemma_pow2_pos((scale - e) as nat);
    lemma_pow2_adds((scale - e) as nat, e);
    lemma_common_factor(m, t, p);
    lemma_common_factor(-m, t, p);
    assert((-m) * p == -(m * p)) by (nonlinear_arith);
    lemma_common_factor(2 * m + t, 2 * t, p);
    assert((2 * m + t) * p == 2 * (m * p) + t * p) by (nonlinear_arith);
    assert((2 * t) * p == 2 * (t * p)) by (nonlinear_arith);
    assert(m * p >= 0) by (nonlinear_arith)
        requires
            m >= 0,
            p > 0,
    ;
}

/// `m * 2^t`, or `limit` where that is less.
fn shifted_up(m: u64, t: u32, limit: u64) -> (r: u64)
    ensures
        r == saturated(m * pow2(t as nat), limit as int),
{
    proof {
        lemma_pow2_pos(t as nat);
        assert(m * pow2(t as nat) >= 0) by (nonlinear_arith)
            requires
                m >= 0,
                pow2(t as nat) > 0,
        ;
    }
    if m == 0 {
        proof {
            assert(m * pow2(t as nat) == 0) by (nonlinear_arith)
                requires
                    m == 0,
            ;
        }
        return 0;
    }
    proof {
        vstd::arithmetic::power2::lemma2_to64();
        vstd::arithmetic::power2::lemma2_to64_rest();
    }
    if t >= 64 {
        proof {
            if t > 64 {
                lemma_pow2_strictly_increases(64, t as nat);
            }
            assert(m * pow2(t as nat) > limit) by (nonlinear_arith)
                requires
                    m >= 1,
                    pow2(t as nat) >= 0x1_0000_0000_0000_0000,
            ;
        }
        return limit;
    }
    let p: u128 = power_of_two(t);
    proof {
        lemma_pow2_strictly_increases(t as nat, 64);
        assert(m * p <= 0xffff_ffff_ffff_ffff * 0x1_0000_0000_0000_0000) by (nonlinear_arith)
            requires
                0 <= m <= 0xffff_ffff_ffff_ffff,
                0 <= p <= 0x1_0000_0000_0000_0000,
        ;
    }
    let v: u128 = m as u128 * p;
    if v > limit as u128 {
        limit
    } else {
        v as u64
    }
}

/// Rounds `m * 2^e / 2^scale` down, saturating at `limit`.
pub(crate) fn floor_parts(m: u64, e: u32, scale: u32, limit: u64) -> (r: u64)
    requires
        m < 0x20_0000_0000_0000,
    ensures
        r == saturated(rounded_down(m * pow2(e as nat), scale as nat), limit as int),
{
    if e >= scale {
        proof {
            lemma_whole(m as int, e as nat, scale as nat);
        }
        return shifted_up(m, e - scale, limit);
    }
    let t: u32 = scale - e;
    proof {
        lemma_fraction(m as int, e as nat, scale as nat);
        vstd::arithmetic::power2::lemma2_to64();
        vstd::arithmetic::power2::lemma2_to64_rest();
        lemma_pow2_pos(t as nat);
    }
    let v: u64 = if t >= 60 {
        proof {
            if t > 60 {
                lemma_pow2_strictly_increases(60, t as nat);
            }
            lemma_fundamental_div_mod_converse(m as int, pow2(t as nat) as int, 0, m as int);
        }
        0
    } else {
        let p: u128 = power_of_two(t);
        proof {
            assert(0 <= m as int / p as int <= m) by (nonlinear_arith)
                requires
                    p >= 1,
                    m >= 0,
            ;
        }
        (m as u128 / p) as u64
    };
    if v > limit {
        limit
    } else {
        v
    }
}

/// Rounds `m * 2^e / 2^scale` up, saturating at `limit`.
pub(crate) fn ceil_parts(m: u64, e: u32, scale: u32, limit: u64) -> (r: u64)
    requires
        m < 0x20_0000_0000_0000,
    ensures
        r == saturated(rounded_up(m * pow2(e as nat), scale as nat), limit as int),
{
    if e >= scale {
        proof {
            lemma_whole(m as int, e as nat, scale as nat);
        }
        return shifted_up(m, e - scale, limit);
    }
    let t: u32 = scale - e;
    proof {
        lemma_fraction(m as int, e as nat, scale as nat);
        vstd::arithmetic::power2::lemma2_to64();
        vstd::arithmetic::power2::lemma2_to64_rest();
        lemma_pow2_pos(t as nat);
    }
    let v: u64 = if t >= 60 {
        proof {
            let p: int = pow2(t as nat) as int;
            if t > 60 {
                lemma_pow2_strictly_increases(60, t as nat);
            }
            if m == 0 {
                lemma_fundamental_div_mod_converse(0, p, 0, 0);
            } else {
                lemma_fundamental_div_mod_converse(-m as int, p, -1, p - m);
            }
        }
        if m == 0 { 0 } else { 1 }
    } else {
        let p: u128 = power_of_two(t);
        let q: u128 = m as u128 / p;
        let rest: u128 = m as u128 % p;
        proof {
            assert(m == q * p + rest && 0 <= q <= m) by (nonlinear_arith)
                requires
                    p >= 1,
                    m >= 0,
                    q == m as int / p as int,
                    rest == m as int % p as int,
            ;
            if rest == 0 {
                assert(-m == (-q) * p) by (nonlinear_arith)
                    requires
                        m == q * p,
                ;
                lemma_fundamental_div_mod_converse(-m as int, p as int, -q as int, 0);
            } else {
                assert(-m == (-q - 1) * p + (p - rest)) by (nonlinear_arith)
                    requires
                        m == q * p + rest,
                ;
                lemma_fundamental_div_mod_converse(-m as int, p as int, -q - 1, p - rest);
            }
        }
        if rest == 0 { q as u64 } else { q as u64 + 1 }
    };
    if v > limit {
        limit
    } else {
        v
    }
}

/// Rounds `m * 2^e / 2^scale` to the nearest integer, halves up, saturating at `limit`.
pub(crate) fn round_parts(m: u64, e: u32, scale: u32, limit: u64) -> (r: u64)
    requires
        m < 0x20_0000_0000_0000,
    ensures
        r == saturated(rounded_half_away(m * pow2(e as nat), scale as nat), limit as int),
{
    if e >= scale {
        proof {
            lemma_whole(m as int, e as nat, scale as nat);
        }
        return shifted_up(m, e - scale, limit);
    }
    let t: u32 = scale - e;
    proof {
        lemma_fraction(m as int, e as nat, scale as nat);
        vstd::arithmetic::power2::lemma2_to64();
        vstd::arithmetic::power2::lemma2_to64_rest();
        lemma_pow2_pos(t as nat);
    }
    let v: u64 = if t >= 60 {
        proof {
            let p: int = pow2(t as nat) as int;
            if t > 60 {
                lemma_pow2_strictly_increases(60, t as nat);
            }
            lemma_fundamental_div_mod_converse(2 * m + p, 2 * p, 0, 2 * m + p);
        }
        0
    } else {
        let p: u128 = power_of_two(t);
        proof {
            lemma_pow2_strictly_increases(t as nat, 60);
            assert(0 <= (2 * m + p) / (2 * p as int) <= m + 1) by (nonlinear_arith)
                requires
                    p >= 1,
                    m >= 0,
            ;
        }
        ((2 * m as u128 + p) / (2 * p)) as u64
    };
    if v > limit {
        limit
    } else {
        v
    }
}

} // verus!
