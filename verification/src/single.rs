//! Single-precision numbers as bit patterns, with IEEE 754 arithmetic in integers.

use crate::integral::{ceil_parts, floor_parts, rounded_down, rounded_up, saturated};
use crate::rounding::{
    exponent_of, lemma_absorbed, lemma_magnitude_increases, lemma_magnitude_parts,
    lemma_magnitude_step, lemma_scaled_ratio, lemma_zero, magnitude, nearest, round_ratio, BINADE,
    INFINITY,
};
use vstd::arithmetic::power2::{
    lemma_pow2_adds, lemma_pow2_pos, lemma_pow2_strictly_increases, lemma_pow2_unfold, pow2,
};
use vstd::prelude::*;

verus! {

/// The sign bit.
pub const SIGN: u32 = 0x8000_0000;

/// The pattern of the NaN that arithmetic gives.
pub const QUIET_NAN: u32 = 0x7fc0_0000;

/// A single-precision number, by its bit pattern.
#[derive(Clone, Copy, Debug)]
pub struct Single {
    pub bits: u32,
}

/// 2 to the power `n`.
pub(crate) fn power_of_two(n: u32) -> (p: u128)
    requires
        n <= 126,
    ensures
        p == pow2(n as nat),
        p <= 0x4000_0000_0000_0000_0000_0000_0000_0000,
        p >= 1,
{
    proof {
        lemma_pow2_126();
        lemma_pow2_pos(n as nat);
        if n < 126 {
            lemma_pow2_strictly_increases(n as nat, 126);
        }
    }
    let mut p: u128 = 1;
    let mut i: u32 = 0;
    proof {
        vstd::arithmetic::power2::lemma2_to64();
    }
    while i < n
        invariant
            i <= n <= 126,
            p == pow2(i as nat),
            pow2(n as nat) <= 0x4000_0000_0000_0000_0000_0000_0000_0000,
        decreases n - i,
    {
        proof {
            lemma_pow2_unfold((i + 1) as nat);
            if i + 1 < n {
                lemma_pow2_strictly_increases((i + 1) as nat, n as nat);
            }
        }
        p = 2 * p;
        i = i + 1;
    }
    p
}

proof fn lemma_pow2_126()
    ensures
        pow2(126) == 0x4000_0000_0000_0000_0000_0000_0000_0000,
{
    vstd::arithmetic::power2::lemma2_to64();
    vstd::arithmetic::power2::lemma2_to64_rest();
    lemma_pow2_adds(62, 64);
}

impl Single {
    /// The sign bit is set.
    pub open spec fn negative(self) -> bool {
        self.bits >= SIGN
    }

    /// The pattern without its sign bit.
    pub open spec fn pattern(self) -> int {
        (self.bits % SIGN) as int
    }

    /// Not a number.
    pub open spec fn nan(self) -> bool {
        self.pattern() > INFINITY
    }

    /// Infinite, of either sign.
    pub open spec fn infinite(self) -> bool {
        self.pattern() == INFINITY
    }

    /// The value in units of 2^-149; an infinity counts as 2^128.
    pub open spec fn units(self) -> int {
        if self.negative() {
            -magnitude(self.pattern())
        } else {
            magnitude(self.pattern())
        }
    }

    /// The number with the given sign and pattern.
    pub open spec fn signed(negative: bool, pattern: int) -> Single {
        Single {
            bits: (if negative {
                pattern + SIGN
            } else {
                pattern
            }) as u32,
        }
    }

    /// The NaN that arithmetic gives.
    pub open spec fn not_a_number() -> Single {
        Single { bits: QUIET_NAN }
    }

    /// The number with the opposite sign.
    pub open spec fn negated(self) -> Single {
        Single::signed(!self.negative(), self.pattern())
    }

    /// `self < other`, false where either is not a number.
    pub open spec fn below(self, other: Single) -> bool {
        !self.nan() && !other.nan() && self.units() < other.units()
    }

    /// The lesser of two numbers; where one is not a number, the other one.
    pub open spec fn lesser(self, other: Single) -> Single {
        if self.nan() || other.below(self) {
            other
        } else {
            self
        }
    }

    /// The greater of two numbers; where one is not a number, the other one.
    pub open spec fn greater(self, other: Single) -> Single {
        if self.nan() || self.below(other) {
            other
        } else {
            self
        }
    }

    /// The correctly rounded sum.
    pub open spec fn sum(self, other: Single) -> Single {
        if self.nan() || other.nan() {
            Single::not_a_number()
        } else if self.infinite() && other.infinite() && self.negative() != other.negative() {
            Single::not_a_number()
        } else if self.infinite() {
            self
        } else if other.infinite() {
            other
        } else {
            let units: int = self.units() + other.units();
            if units == 0 {
                Single::signed(self.negative() && other.negative(), 0)
            } else if units < 0 {
                Single::signed(true, nearest(-units, 1))
            } else {
                Single::signed(false, nearest(units, 1))
            }
        }
    }

    /// The correctly rounded difference.
    pub open spec fn difference(self, other: Single) -> Single {
        self.sum(other.negated())
    }

    /// The correctly rounded product.
    pub open spec fn product(self, other: Single) -> Single {
        let negative: bool = self.negative() != other.negative();
        if self.nan() || other.nan() {
            Single::not_a_number()
        } else if self.infinite() || other.infinite() {
            if self.pattern() == 0 || other.pattern() == 0 {
                Single::not_a_number()
            } else {
                Single::signed(negative, INFINITY as int)
            }
        } else {
            Single::signed(
                negative,
                nearest(magnitude(self.pattern()) * magnitude(other.pattern()), pow2(149) as int),
            )
        }
    }

    /// The correctly rounded quotient.
    pub open spec fn quotient(self, other: Single) -> Single {
        let negative: bool = self.negative() != other.negative();
        if self.nan() || other.nan() {
            Single::not_a_number()
        } else if self.infinite() {
            if other.infinite() {
                Single::not_a_number()
            } else {
                Single::signed(negative, INFINITY as int)
            }
        } else if other.infinite() {
            Single::signed(negative, 0)
        } else if other.pattern() == 0 {
            if self.pattern() == 0 {
                Single::not_a_number()
            } else {
                Single::signed(negative, INFINITY as int)
            }
        } else {
            Single::signed(
                negative,
                nearest(magnitude(self.pattern()) * pow2(149), magnitude(other.pattern())),
            )
        }
    }

    /// The number nearest to an integer.
    pub open spec fn of_integer(n: int) -> Single {
        Single::signed(false, nearest(n * pow2(149), 1))
    }

    /// `self.floor() as usize`.
    pub open spec fn floor_index(self) -> int {
        if self.nan() {
            0
        } else {
            saturated(rounded_down(self.units(), 149), usize::MAX as int)
        }
    }

    /// `self.ceil()` cast to an unsigned integer with the maximum `limit`.
    pub open spec fn ceil_index(self, limit: int) -> int {
        if self.nan() {
            0
        } else {
            saturated(rounded_up(self.units(), 149), limit)
        }
    }

    /// The pattern without its sign bit, computed.
    pub(crate) fn unsigned_bits(self) -> (k: u32)
        ensures
            k == self.pattern(),
            k < SIGN,
            self.bits == (if self.negative() { k + SIGN } else { k as int }),
    {
        if self.bits >= SIGN {
            self.bits - SIGN
        } else {
            self.bits
        }
    }

    /// `f32::is_nan`.
    pub fn is_nan(self) -> (r: bool)
        ensures
            r == self.nan(),
    {
        self.unsigned_bits() > INFINITY
    }

    /// Assembles a number from its sign and its pattern.
    fn assemble(negative: bool, k: u32) -> (r: Single)
        requires
            k < SIGN,
        ensures
            r == Single::signed(negative, k as int),
            r.pattern() == k,
            r.negative() == negative,
    {
        if negative {
            Single { bits: k + SIGN }
        } else {
            Single { bits: k }
        }
    }

    /// The significand and the exponent of the value, in units of 2^-149.
    pub(crate) fn parts(self) -> (r: (u32, u32))
        requires
            !self.nan(),
        ensures
            r.0 * pow2(r.1 as nat) == magnitude(self.pattern()),
            r.1 == exponent_of(self.pattern()),
            r.0 == self.pattern() - r.1 * BINADE,
            r.0 < 2 * BINADE,
            r.1 <= 254,
            r.1 > 0 ==> r.0 >= BINADE,
            r.0 == 0 <==> self.pattern() == 0,
            !self.infinite() ==> r.1 <= 253,
    {
        let k: u32 = self.unsigned_bits();
        if k < 2 * BINADE {
            (k, 0)
        } else {
            let e: u32 = k / BINADE - 1;
            (k - e * BINADE, e)
        }
    }

    /// `<` on singles.
    pub fn less_than(self, other: Single) -> (r: bool)
        ensures
            r == self.below(other),
    {
        let a: u32 = self.unsigned_bits();
        let b: u32 = other.unsigned_bits();
        if a > INFINITY || b > INFINITY {
            return false;
        }
        proof {
            lemma_magnitude_parts(0, 0);
            lemma_magnitude_increases(0, a as int);
            lemma_magnitude_increases(0, b as int);
            if a <= b {
                lemma_magnitude_increases(a as int, b as int);
            } else {
                lemma_magnitude_increases(b as int, a as int);
            }
        }
        if self.bits >= SIGN {
            if other.bits >= SIGN {
                b < a
            } else {
                a > 0 || b > 0
            }
        } else if other.bits >= SIGN {
            false
        } else {
            a < b
        }
    }

    /// `f32::min`.
    pub fn min(self, other: Single) -> (r: Single)
        ensures
            r == self.lesser(other),
    {
        if self.is_nan() || other.less_than(self) {
            other
        } else {
            self
        }
    }

    /// `f32::max`.
    pub fn max(self, other: Single) -> (r: Single)
        ensures
            r == self.greater(other),
    {
        if self.is_nan() || self.less_than(other) {
            other
        } else {
            self
        }
    }

    /// Unary `-`.
    pub fn negate(self) -> (r: Single)
        ensures
            r == self.negated(),
    {
        let k: u32 = self.unsigned_bits();
        Single::assemble(self.bits < SIGN, k)
    }

    /// `a + b` for finite numbers, the first of which has the larger exponent.
    fn plus_finite(self, other: Single) -> (r: Single)
        requires
            !self.nan() && !self.infinite(),
            !other.nan() && !other.infinite(),
            exponent_of(self.pattern()) >= exponent_of(other.pattern()),
        ensures
            r == self.sum(other),
    {
        let (ma, ea) = self.parts();
        let (mb, eb) = other.parts();
        let d: u32 = ea - eb;
        let ghost pb: int = pow2(eb as nat) as int;
        proof {
            lemma_pow2_pos(eb as nat);
            lemma_magnitude_step(self.pattern());
            lemma_magnitude_step(other.pattern());
        }
        if d > 75 {
            proof {
                let p: int = pow2((ea - 2) as nat) as int;
                let q: int = pow2((ea - 76) as nat) as int;
                lemma_pow2_adds(74, (ea - 76) as nat);
                lemma_pow2_pos((ea - 76) as nat);
                lemma_pow2_adds(24, 50);
                lemma_pow2_pos(50);
                vstd::arithmetic::power2::lemma2_to64();
                if eb < ea - 76 {
                    lemma_pow2_strictly_increases(eb as nat, (ea - 76) as nat);
                }
                assert(mb * pb < p) by (nonlinear_arith)
                    requires
                        0 <= mb < 0x100_0000,
                        0 < pb <= q,
                        p == pow2(74) * q,
                        pow2(74) == 0x100_0000 * pow2(50),
                        pow2(50) >= 1,
                ;
                let delta: int = if self.negative() == other.negative() {
                    magnitude(other.pattern())
                } else {
                    -magnitude(other.pattern())
                };
                lemma_absorbed(self.pattern(), delta);
            }
            return self;
        }
        let shift: u128 = power_of_two(d);
        proof {
            lemma_pow2_75();
            if d < 75 {
                lemma_pow2_strictly_increases(d as nat, 75);
            }
            assert(ma * shift < 0x100_0000 * 0x800_0000_0000_0000_0000) by (nonlinear_arith)
                requires
                    0 <= ma < 0x100_0000,
                    0 < shift <= 0x800_0000_0000_0000_0000,
            ;
        }
        let big: i128 = (ma as u128 * shift) as i128;
        let small: i128 = mb as i128;
        let left: i128 = if self.bits >= SIGN { -big } else { big };
        let right: i128 = if other.bits >= SIGN { -small } else { small };
        let total: i128 = left + right;
        proof {
            lemma_pow2_adds(d as nat, eb as nat);
            assert(big * pb == ma * pow2(ea as nat)) by (nonlinear_arith)
                requires
                    big == ma * shift,
                    pow2(ea as nat) == shift * pb,
            ;
            assert((-big) * pb == -(big * pb)) by (nonlinear_arith);
            assert((-small) * pb == -(small * pb)) by (nonlinear_arith);
            assert(left * pb == self.units());
            assert(right * pb == other.units());
            assert(total * pb == left * pb + right * pb) by (nonlinear_arith)
                requires
                    total == left + right,
            ;
            assert((-total) * pb == -(total * pb)) by (nonlinear_arith);
            assert(total > 0 ==> total * pb > 0) by (nonlinear_arith)
                requires
                    pb > 0,
            ;
            assert(total < 0 ==> total * pb < 0) by (nonlinear_arith)
                requires
                    pb > 0,
            ;
            vstd::arithmetic::power2::lemma2_to64();
        }
        if total == 0 {
            proof {
                assert(total * pb == 0) by (nonlinear_arith)
                    requires
                        total == 0,
                ;
                if self.negative() && other.negative() {
                    assert(big == 0 && small == 0);
                }
            }
            Single::assemble(self.bits >= SIGN && other.bits >= SIGN, 0)
        } else if total < 0 {
            let k: u32 = round_ratio((-total) as u128, 1, eb as i32);
            proof {
                lemma_scaled_ratio(-total as int, 1, eb as nat, 0, k as int);
            }
            Single::assemble(true, k)
        } else {
            let k: u32 = round_ratio(total as u128, 1, eb as i32);
            proof {
                lemma_scaled_ratio(total as int, 1, eb as nat, 0, k as int);
            }
            Single::assemble(false, k)
        }
    }

    /// `+` on singles.
    pub fn plus(self, other: Single) -> (r: Single)
        ensures
            r == self.sum(other),
    {
        let a: u32 = self.unsigned_bits();
        let b: u32 = other.unsigned_bits();
        if a > INFINITY || b > INFINITY {
            return Single { bits: QUIET_NAN };
        }
        if a == INFINITY {
            if b == INFINITY && (self.bits >= SIGN) != (other.bits >= SIGN) {
                return Single { bits: QUIET_NAN };
            }
            return self;
        }
        if b == INFINITY {
            return other;
        }
        let (_, ea) = self.parts();
        let (_, eb) = other.parts();
        if ea >= eb {
            self.plus_finite(other)
        } else {
            other.plus_finite(self)
        }
    }

    /// `-` on singles.
    pub fn minus(self, other: Single) -> (r: Single)
        ensures
            r == self.difference(other),
    {
        self.plus(other.negate())
    }

    /// `*` on singles.
    pub fn times(self, other: Single) -> (r: Single)
        ensures
            r == self.product(other),
    {
        let a: u32 = self.unsigned_bits();
        let b: u32 = other.unsigned_bits();
        let negative: bool = (self.bits >= SIGN) != (other.bits >= SIGN);
        if a > INFINITY || b > INFINITY {
            return Single { bits: QUIET_NAN };
        }
        if a == INFINITY || b == INFINITY {
            if a == 0 || b == 0 {
                return Single { bits: QUIET_NAN };
            }
            return Single::assemble(negative, INFINITY);
        }
        proof {
            lemma_pow2_pos(149);
            lemma_magnitude_parts(0, 0);
        }
        if a == 0 || b == 0 {
            proof {
                lemma_zero(pow2(149) as int);
                assert(magnitude(a as int) * magnitude(b as int) == 0) by (nonlinear_arith)
                    requires
                        magnitude(a as int) == 0 || magnitude(b as int) == 0,
                ;
            }
            return Single::assemble(negative, 0);
        }
        let (ma, ea) = self.parts();
        let (mb, eb) = other.parts();
        proof {
            assert(0 < ma * mb < 0x1_0000_0000_0000) by (nonlinear_arith)
                requires
                    0 < ma < 0x100_0000,
                    0 < mb < 0x100_0000,
            ;
        }
        let k: u32 = round_ratio(ma as u128 * mb as u128, 1, ea as i32 + eb as i32 - 149);
        proof {
            lemma_scaled_ratio(ma * mb, 1, (ea + eb) as nat, 149, k as int);
            lemma_pow2_adds(ea as nat, eb as nat);
            let pa: int = pow2(ea as nat) as int;
            let pb: int = pow2(eb as nat) as int;
            assert((ma * mb) * (pa * pb) == (ma * pa) * (mb * pb)) by (nonlinear_arith);
        }
        Single::assemble(negative, k)
    }

    /// `/` on singles.
    pub fn over(self, other: Single) -> (r: Single)
        ensures
            r == self.quotient(other),
    {
        let a: u32 = self.unsigned_bits();
        let b: u32 = other.unsigned_bits();
        let negative: bool = (self.bits >= SIGN) != (other.bits >= SIGN);
        if a > INFINITY || b > INFINITY {
            return Single { bits: QUIET_NAN };
        }
        if a == INFINITY {
            if b == INFINITY {
                return Single { bits: QUIET_NAN };
            }
            return Single::assemble(negative, INFINITY);
        }
        if b == INFINITY {
            return Single::assemble(negative, 0);
        }
        if b == 0 {
            if a == 0 {
                return Single { bits: QUIET_NAN };
            }
            return Single::assemble(negative, INFINITY);
        }
        proof {
            lemma_magnitude_parts(0, 0);
            lemma_magnitude_increases(0, b as int);
        }
        if a == 0 {
            proof {
                lemma_zero(magnitude(b as int));
                assert(magnitude(a as int) * pow2(149) == 0) by (nonlinear_arith)
                    requires
                        magnitude(a as int) == 0,
                ;
            }
            return Single::assemble(negative, 0);
        }
        let (ma, ea) = self.parts();
        let (mb, eb) = other.parts();
        let k: u32 = round_ratio(ma as u128, mb as u128, ea as i32 - eb as i32 + 149);
        proof {
            lemma_scaled_ratio(ma as int, mb as int, (ea + 149) as nat, eb as nat, k as int);
            lemma_pow2_adds(ea as nat, 149);
            let pa: int = pow2(ea as nat) as int;
            let pc: int = pow2(149) as int;
            assert(ma * (pa * pc) == (ma * pa) * pc) by (nonlinear_arith);
        }
        Single::assemble(negative, k)
    }

    /// `n as f32`.
    pub fn from_integer(n: u32) -> (r: Single)
        ensures
            r == Single::of_integer(n as int),
    {
        if n == 0 {
            proof {
                lemma_zero(1);
                assert(0 * pow2(149) == 0);
            }
            return Single { bits: 0 };
        }
        let k: u32 = round_ratio(n as u128, 1, 149);
        proof {
            lemma_scaled_ratio(n as int, 1, 149, 0, k as int);
            vstd::arithmetic::power2::lemma2_to64();
        }
        Single::assemble(false, k)
    }

    /// `self.floor() as usize`.
    pub fn floor_to_usize(self) -> (r: usize)
        ensures
            r == self.floor_index(),
    {
        if self.is_nan() {
            return 0;
        }
        let (m, e) = self.parts();
        proof {
            lemma_magnitude_step(self.pattern());
            lemma_negative_rounding(magnitude(self.pattern()), 149);
        }
        if self.bits >= SIGN {
            return 0;
        }
        floor_parts(m as u64, e, 149, usize::MAX as u64) as usize
    }

    /// `self.ceil() as usize`.
    pub fn ceil_to_usize(self) -> (r: usize)
        ensures
            r == self.ceil_index(usize::MAX as int),
    {
        self.ceil_to(usize::MAX as u64) as usize
    }

    /// `self.ceil() as u32`.
    pub fn ceil_to_u32(self) -> (r: u32)
        ensures
            r == self.ceil_index(u32::MAX as int),
    {
        self.ceil_to(u32::MAX as u64) as u32
    }

    fn ceil_to(self, limit: u64) -> (r: u64)
        ensures
            r == self.ceil_index(limit as int),
            r <= limit,
    {
        if self.is_nan() {
            return 0;
        }
        let (m, e) = self.parts();
        proof {
            lemma_magnitude_step(self.pattern());
            lemma_negative_rounding(magnitude(self.pattern()), 149);
        }
        if self.bits >= SIGN {
            return 0;
        }
        ceil_parts(m as u64, e, 149, limit)
    }
}

/// `==` on singles: the two zeros are equal, and what is not a number equals nothing.
impl PartialEq for Single {
    fn eq(&self, other: &Single) -> (r: bool) {
        let a: u32 = self.unsigned_bits();
        let b: u32 = other.unsigned_bits();
        proof {
            lemma_magnitude_parts(0, 0);
            lemma_magnitude_increases(0, a as int);
            lemma_magnitude_increases(0, b as int);
            if a <= b {
                lemma_magnitude_increases(a as int, b as int);
            } else {
                lemma_magnitude_increases(b as int, a as int);
            }
        }
        a <= INFINITY && b <= INFINITY && (self.bits == other.bits || (a == 0 && b == 0))
    }
}

impl vstd::std_specs::cmp::PartialEqSpecImpl for Single {
    open spec fn obeys_eq_spec() -> bool {
        true
    }

    open spec fn eq_spec(&self, other: &Single) -> bool {
        !self.nan() && !other.nan() && self.units() == other.units()
    }
}

/// Numbers that are not above zero saturate at zero.
proof fn lemma_negative_rounding(m: int, scale: nat)
    requires
        m >= 0,
    ensures
        rounded_down(-m, scale) <= 0,
        rounded_up(-m, scale) <= 0,
{
    let p: int = pow2(scale) as int;
    lemma_pow2_pos(scale);
    assert((-m) / p <= 0) by (nonlinear_arith)
        requires
            m >= 0,
            p > 0,
    ;
    assert(m / p >= 0) by (nonlinear_arith)
        requires
            m >= 0,
            p > 0,
    ;
    assert(-(-m) == m);
}

proof fn lemma_pow2_75()
    ensures
        pow2(75) == 0x800_0000_0000_0000_0000,
{
    vstd::arithmetic::power2::lemma2_to64();
    vstd::arithmetic::power2::lemma2_to64_rest();
    lemma_pow2_adds(11, 64);
}

} // verus!
