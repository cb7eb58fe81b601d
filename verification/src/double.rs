//! Double-precision numbers as bit patterns, as far as positions need them: conversion from and
//! to singles, and rounding to an index.

use crate::integral::{round_parts, rounded_half_away, saturated};
use crate::rounding::{lemma_scaled_ratio, lemma_zero, magnitude, nearest, round_ratio, INFINITY};
use crate::single::{Single, QUIET_NAN, SIGN};
use vstd::arithmetic::power2::{
    lemma_pow2_adds, lemma_pow2_pos, lemma_pow2_strictly_increases, lemma_pow2_unfold, pow2,
};
use vstd::prelude::*;

verus! {

/// 2^52, the number of patterns between two consecutive powers of two.
pub const DOUBLE_BINADE: u64 = 0x10_0000_0000_0000;

/// The pattern of infinity.
pub const DOUBLE_INFINITY: u64 = 0x7ff0_0000_0000_0000;

/// The sign bit.
pub const DOUBLE_SIGN: u64 = 0x8000_0000_0000_0000;

/// The pattern of the NaN that a conversion gives.
pub const DOUBLE_QUIET_NAN: u64 = 0x7ff8_0000_0000_0000;

/// The exponent, in units of 2^-1074, of the binade that the pattern `k` lies in.
pub open spec fn double_exponent_of(k: int) -> nat {
    if k < 2 * DOUBLE_BINADE {
        0
    } else {
        (k / DOUBLE_BINADE as int - 1) as nat
    }
}

/// The value of the pattern `k`, in units of 2^-1074.
pub open spec fn double_magnitude(k: int) -> int {
    (k - double_exponent_of(k) * DOUBLE_BINADE) * pow2(double_exponent_of(k))
}

/// A double-precision number, by its bit pattern.
#[derive(Clone, Copy, Debug)]
pub struct Double {
    pub bits: u64,
}

/// A pattern written as a significand and an exponent has the value they denote.
pub proof fn lemma_double_parts(s: nat, m: int)
    requires
        0 <= m <= 2 * DOUBLE_BINADE,
        s > 0 ==> m >= DOUBLE_BINADE,
    ensures
        double_magnitude(s * DOUBLE_BINADE + m) == m * pow2(s),
{
    let k: int = s * DOUBLE_BINADE + m;
    if m == 2 * DOUBLE_BINADE {
        assert(k / DOUBLE_BINADE as int == s + 2);
        lemma_pow2_unfold((s + 1) as nat);
        assert(m * pow2(s) == DOUBLE_BINADE * (2 * pow2(s))) by (nonlinear_arith)
            requires
                m == 2 * DOUBLE_BINADE,
        ;
    } else if s > 0 {
        assert(k / DOUBLE_BINADE as int == s + 1);
    }
}

/// Larger patterns have larger values.
pub proof fn lemma_double_increases(a: int, b: int)
    requires
        0 <= a <= b,
    ensures
        a < b ==> double_magnitude(a) < double_magnitude(b),
        double_magnitude(a) >= 0,
    decreases b - a,
{
    let s: nat = double_exponent_of(a);
    let m: int = a - s * DOUBLE_BINADE;
    lemma_pow2_pos(s);
    lemma_double_parts(s, m);
    lemma_double_parts(s, m + 1);
    assert((m + 1) * pow2(s) == m * pow2(s) + pow2(s)) by (nonlinear_arith);
    assert(m * pow2(s) >= 0) by (nonlinear_arith)
        requires
            m >= 0,
            pow2(s) >= 1,
    ;
    if a < b {
        lemma_double_increases(a + 1, b);
    }
}

impl Double {
    /// The sign bit is set.
    pub open spec fn negative(self) -> bool {
        self.bits >= DOUBLE_SIGN
    }

    /// The pattern without its sign bit.
    pub open spec fn pattern(self) -> int {
        (self.bits % DOUBLE_SIGN) as int
    }

    /// Not a number.
    pub open spec fn nan(self) -> bool {
        self.pattern() > DOUBLE_INFINITY
    }

    /// Infinite, of either sign.
    pub open spec fn infinite(self) -> bool {
        self.pattern() == DOUBLE_INFINITY
    }

    /// The value in units of 2^-1074; an infinity counts as 2^1024.
    pub open spec fn units(self) -> int {
        if self.negative() {
            -double_magnitude(self.pattern())
        } else {
            double_magnitude(self.pattern())
        }
    }

    /// The nearest single.
    pub open spec fn narrowed(self) -> Single {
        if self.nan() {
            Single::not_a_number()
        } else if self.infinite() {
            Single::signed(self.negative(), INFINITY as int)
        } else {
            Single::signed(
                self.negative(),
                nearest(double_magnitude(self.pattern()), pow2(925) as int),
            )
        }
    }

    /// `self` is the single `from`, written in double precision.
    pub open spec fn widens(self, from: Single) -> bool {
        if from.nan() {
            self.bits == DOUBLE_QUIET_NAN
        } else if from.infinite() {
            self.infinite() && self.negative() == from.negative()
        } else {
            &&& !self.nan() && !self.infinite()
            &&& self.negative() == from.negative()
            &&& self.units() == from.units() * pow2(925)
        }
    }

    /// The double with the value of a single.
    pub open spec fn widened(from: Single) -> Double {
        choose|d: Double| d.widens(from)
    }

    /// `self.round() as usize`.
    pub open spec fn round_index(self) -> int {
        if self.nan() {
            0
        } else {
            saturated(rounded_half_away(self.units(), 1074), usize::MAX as int)
        }
    }

    /// The pattern without its sign bit, computed.
    fn unsigned_bits(self) -> (k: u64)
        ensures
            k == self.pattern(),
            k < DOUBLE_SIGN,
            self.bits == (if self.negative() { k + DOUBLE_SIGN } else { k as int }),
    {
        if self.bits >= DOUBLE_SIGN {
            self.bits - DOUBLE_SIGN
        } else {
            self.bits
        }
    }

    /// The significand and the exponent of the value, in units of 2^-1074.
    fn parts(self) -> (r: (u64, u32))
        requires
            !self.nan(),
        ensures
            r.0 * pow2(r.1 as nat) == double_magnitude(self.pattern()),
            r.0 < 2 * DOUBLE_BINADE,
            r.1 <= 2046,
            r.0 == 0 <==> self.pattern() == 0,
            double_magnitude(self.pattern()) >= 0,
    {
        let k: u64 = self.unsigned_bits();
        proof {
            lemma_double_increases(k as int, k as int);
        }
        if k < 2 * DOUBLE_BINADE {
            (k, 0)
        } else {
            let e: u64 = k / DOUBLE_BINADE - 1;
            (k - e * DOUBLE_BINADE, e as u32)
        }
    }

    /// `self as f32`.
    pub fn to_single(self) -> (r: Single)
        ensures
            r == self.narrowed(),
    {
        let k: u64 = self.unsigned_bits();
        if k > DOUBLE_INFINITY {
            return Single { bits: QUIET_NAN };
        }
        let sign: u32 = if self.bits >= DOUBLE_SIGN { SIGN } else { 0 };
        if k == DOUBLE_INFINITY {
            return Single { bits: INFINITY + sign };
        }
        let (m, e) = self.parts();
        if m == 0 {
            proof {
                lemma_pow2_pos(925);
                lemma_double_parts(0, 0);
                lemma_zero(pow2(925) as int);
            }
            return Single { bits: sign };
        }
        let r: u32 = round_ratio(m as u128, 1, e as i32 - 925);
        proof {
            lemma_scaled_ratio(m as int, 1, e as nat, 925, r as int);
        }
        Single { bits: r + sign }
    }

    /// `from as f64`.
    pub fn from_single(from: Single) -> (r: Double)
        ensures
            r == Double::widened(from),
            r.widens(from),
    {
        let k: u32 = from.unsigned_bits();
        let sign: u64 = if from.bits >= SIGN { DOUBLE_SIGN } else { 0 };
        if k > INFINITY {
            let r: Double = Double { bits: DOUBLE_QUIET_NAN };
            proof {
                assert(r.widens(from));
            lemma_widens_unique(r, Double::widened(from), from);
            }
            return r;
        }
        if k == INFINITY {
            let r: Double = Double { bits: DOUBLE_INFINITY + sign };
            proof {
                assert(r.widens(from));
            lemma_widens_unique(r, Double::widened(from), from);
            }
            return r;
        }
        let (significand, e) = from.parts();
        let mut m: u64 = significand as u64;
        if m == 0 {
            let r: Double = Double { bits: sign };
            proof {
                lemma_double_parts(0, 0);
                assert(magnitude(k as int) == 0) by (nonlinear_arith)
                    requires
                        magnitude(k as int) == significand * pow2(e as nat),
                        significand == 0,
                ;
                assert(0 * pow2(925) == 0);
                assert(r.widens(from));
            lemma_widens_unique(r, Double::widened(from), from);
            }
            return r;
        }
        let mut s: u64 = e as u64 + 925;
        let ghost start: int = s as int;
        let ghost total: int = magnitude(k as int) * pow2(925);
        proof {
            lemma_pow2_adds(e as nat, 925);
            let pe: int = pow2(e as nat) as int;
            let pc: int = pow2(925) as int;
            assert(significand * (pe * pc) == (significand * pe) * pc) by (nonlinear_arith);
            vstd::arithmetic::power2::lemma2_to64();
        }
        while m < DOUBLE_BINADE
            invariant
                0 < m < 2 * DOUBLE_BINADE,
                873 <= s <= start <= 1178,
                start >= 925,
                pow2((start - s) as nat) <= m,
                m * pow2(s as nat) == total,
            decreases s,
        {
            proof {
                lemma_pow2_unfold(s as nat);
                let half: int = pow2((s - 1) as nat) as int;
                assert(m * (2 * half) == (2 * m) * half) by (nonlinear_arith);
                vstd::arithmetic::power2::lemma2_to64_rest();
                if start - s > 52 {
                    lemma_pow2_strictly_increases(52, (start - s) as nat);
                }
                assert(start - s < 52);
                lemma_pow2_unfold((start - s + 1) as nat);
            }
            m = 2 * m;
            s = s - 1;
        }
        let r: Double = Double { bits: s * DOUBLE_BINADE + m + sign };
        proof {
            lemma_double_parts(s as nat, m as int);
            assert(r.pattern() == s * DOUBLE_BINADE + m);
            assert((-magnitude(k as int)) * pow2(925) == -total) by (nonlinear_arith)
                requires
                    total == magnitude(k as int) * pow2(925),
            ;
            assert(r.widens(from));
            lemma_widens_unique(r, Double::widened(from), from);
        }
        r
    }

    /// `self.round() as usize`.
    pub fn round_to_usize(self) -> (r: usize)
        ensures
            r == self.round_index(),
    {
        let k: u64 = self.unsigned_bits();
        if k > DOUBLE_INFINITY {
            return 0;
        }
        let (m, e) = self.parts();
        if self.bits >= DOUBLE_SIGN {
            proof {
                let units: int = double_magnitude(k as int);
                let p: int = pow2(1074) as int;
                lemma_pow2_pos(1074);
                assert(0 <= (2 * units + p) / (2 * p)) by (nonlinear_arith)
                    requires
                        units >= 0,
                        p > 0,
                ;
                assert(units == 0 ==> (2 * units + p) / (2 * p) == 0) by (nonlinear_arith)
                    requires
                        p > 0,
                ;
                assert(-2 * (-units) == 2 * units);
            }
            return 0;
        }
        round_parts(m, e, 1074, usize::MAX as u64) as usize
    }
}

/// `==` on doubles: the two zeros are equal, and what is not a number equals nothing.
impl PartialEq for Double {
    fn eq(&self, other: &Double) -> (r: bool) {
        let a: u64 = self.unsigned_bits();
        let b: u64 = other.unsigned_bits();
        proof {
            lemma_double_parts(0, 0);
            lemma_double_increases(0, a as int);
            lemma_double_increases(0, b as int);
            if a <= b {
                lemma_double_increases(a as int, b as int);
            } else {
                lemma_double_increases(b as int, a as int);
            }
        }
        a <= DOUBLE_INFINITY && b <= DOUBLE_INFINITY && (self.bits == other.bits || (a == 0 && b
            == 0))
    }
}

impl vstd::std_specs::cmp::PartialEqSpecImpl for Double {
    open spec fn obeys_eq_spec() -> bool {
        true
    }

    open spec fn eq_spec(&self, other: &Double) -> bool {
        !self.nan() && !other.nan() && self.units() == other.units()
    }
}

/// A single has one double of its value.
pub proof fn lemma_widens_unique(a: Double, b: Double, from: Single)
    requires
        a.widens(from),
        b.widens(from),
    ensures
        a == b,
{
    if a.pattern() < b.pattern() {
        lemma_double_increases(a.pattern(), b.pattern());
    } else if b.pattern() < a.pattern() {
        lemma_double_increases(b.pattern(), a.pattern());
    }
}

} // verus!
