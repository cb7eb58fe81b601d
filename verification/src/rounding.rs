//! Round-to-nearest-even onto the grid of single-precision magnitudes.
//!
//! A magnitude is a bit pattern without its sign bit. Patterns `0..=INFINITY` enumerate the
//! non-negative single-precision values in increasing order, with infinity standing for the
//! first power of two that does not fit. All values are measured in units of 2^-149, the
//! smallest positive single, in which every one of them is an integer.

use vstd::arithmetic::power2::{
    lemma_pow2_adds, lemma_pow2_pos, lemma_pow2_strictly_increases, lemma_pow2_unfold, pow2,
};
use vstd::prelude::*;

verus! {

/// 2^23, the number of patterns between two consecutive powers of two.
pub const BINADE: u32 = 0x80_0000;

/// The pattern of infinity.
pub const INFINITY: u32 = 0x7f80_0000;

/// The exponent, in units, of the binade that the pattern `k` lies in.
pub open spec fn exponent_of(k: int) -> nat {
    if k < 2 * BINADE {
        0
    } else {
        (k / BINADE as int - 1) as nat
    }
}

/// The value of the pattern `k`, in units of 2^-149.
pub open spec fn magnitude(k: int) -> int {
    (k - exponent_of(k) * BINADE) * pow2(exponent_of(k))
}

/// The pattern `k` is the nearest one to the value `num / den`, and on a tie the even one.
pub open spec fn rounds_to(num: int, den: int, k: int) -> bool {
    &&& 0 <= k <= INFINITY
    &&& k > 0 ==> {
        ||| 2 * num > den * (magnitude(k - 1) + magnitude(k))
        ||| 2 * num == den * (magnitude(k - 1) + magnitude(k)) && k % 2 == 0
    }
    &&& k < INFINITY ==> {
        ||| 2 * num < den * (magnitude(k) + magnitude(k + 1))
        ||| 2 * num == den * (magnitude(k) + magnitude(k + 1)) && k % 2 == 0
    }
}

/// The pattern nearest to `num / den`, ties to even.
pub open spec fn nearest(num: int, den: int) -> int {
    choose|k: int| rounds_to(num, den, k)
}

/// A pattern written as a significand and an exponent has the value they denote.
pub proof fn lemma_magnitude_parts(s: nat, m: int)
    requires
        0 <= m <= 2 * BINADE,
        s > 0 ==> m >= BINADE,
    ensures
        magnitude(s * BINADE + m) == m * pow2(s),
{
    let k: int = s * BINADE + m;
    if m == 2 * BINADE {
        assert(k / BINADE as int == s + 2);
        assert(exponent_of(k) == s + 1);
        lemma_pow2_unfold((s + 1) as nat);
        assert(m * pow2(s) == BINADE * (2 * pow2(s))) by (nonlinear_arith)
            requires
                m == 2 * BINADE,
        ;
    } else if s == 0 {
        assert(exponent_of(k) == 0);
    } else {
        assert(k / BINADE as int == s + 1);
        assert(exponent_of(k) == s);
    }
}

/// Consecutive patterns: the larger one has the larger value, and both share the exponent of
/// the smaller one.
pub proof fn lemma_magnitude_step(k: int)
    requires
        0 <= k,
    ensures
        magnitude(k + 1) == magnitude(k) + pow2(exponent_of(k)),
        magnitude(k) >= 0,
        pow2(exponent_of(k)) >= 1,
{
    let s: nat = exponent_of(k);
    let m: int = k - s * BINADE;
    lemma_pow2_pos(s);
    assert(0 <= m < 2 * BINADE && (s > 0 ==> m >= BINADE));
    lemma_magnitude_parts(s, m);
    lemma_magnitude_parts(s, m + 1);
    assert((m + 1) * pow2(s) == m * pow2(s) + pow2(s)) by (nonlinear_arith);
    assert(m * pow2(s) >= 0) by (nonlinear_arith)
        requires
            m >= 0,
            pow2(s) >= 1,
    ;
}

/// Larger patterns have larger values.
pub proof fn lemma_magnitude_increases(a: int, b: int)
    requires
        0 <= a <= b,
    ensures
        magnitude(a) <= magnitude(b),
        a < b ==> magnitude(a) < magnitude(b),
        magnitude(a) >= 0,
    decreases b - a,
{
    lemma_magnitude_step(a);
    if a < b {
        lemma_magnitude_increases(a + 1, b);
    }
}

/// At most one pattern is nearest to a value.
pub proof fn lemma_rounds_to_unique(num: int, den: int, a: int, b: int)
    requires
        den > 0,
        rounds_to(num, den, a),
        rounds_to(num, den, b),
    ensures
        a == b,
{
    lemma_not_before(num, den, a, b);
    lemma_not_before(num, den, b, a);
}

proof fn lemma_not_before(num: int, den: int, a: int, b: int)
    requires
        den > 0,
        rounds_to(num, den, a),
        rounds_to(num, den, b),
    ensures
        a >= b,
{
    if a < b {
        let low: int = magnitude(a) + magnitude(a + 1);
        let high: int = magnitude(b - 1) + magnitude(b);
        lemma_magnitude_increases(a, b - 1);
        lemma_magnitude_increases(a + 1, b);
        assert(den * low <= den * high) by (nonlinear_arith)
            requires
                den > 0,
                low <= high,
        ;
        if a + 1 < b {
            assert(den * low < den * high) by (nonlinear_arith)
                requires
                    den > 0,
                    low < high,
            ;
        }
    }
}

/// Whatever pattern is found to be nearest is the nearest one.
pub proof fn lemma_nearest(num: int, den: int, k: int)
    requires
        den > 0,
        rounds_to(num, den, k),
    ensures
        nearest(num, den) == k,
{
    lemma_rounds_to_unique(num, den, k, nearest(num, den));
}

/// Rounding depends on the ratio alone.
pub proof fn lemma_same_ratio(n1: int, d1: int, n2: int, d2: int, k: int)
    requires
        d1 > 0,
        d2 > 0,
        n1 * d2 == n2 * d1,
        rounds_to(n1, d1, k),
    ensures
        rounds_to(n2, d2, k),
{
    if k > 0 {
        lemma_ratio_sides(n1, d1, n2, d2, magnitude(k - 1) + magnitude(k));
    }
    if k < INFINITY {
        lemma_ratio_sides(n1, d1, n2, d2, magnitude(k) + magnitude(k + 1));
    }
}

proof fn lemma_ratio_sides(n1: int, d1: int, n2: int, d2: int, x: int)
    requires
        d1 > 0,
        d2 > 0,
        n1 * d2 == n2 * d1,
    ensures
        2 * n1 < d1 * x <==> 2 * n2 < d2 * x,
        2 * n1 == d1 * x <==> 2 * n2 == d2 * x,
{
    let left: int = 2 * n1 - d1 * x;
    let right: int = 2 * n2 - d2 * x;
    assert(left * d2 == right * d1) by (nonlinear_arith)
        requires
            n1 * d2 == n2 * d1,
            left == 2 * n1 - d1 * x,
            right == 2 * n2 - d2 * x,
    ;
    assert(left < 0 <==> right < 0) by (nonlinear_arith)
        requires
            left * d2 == right * d1,
            d1 > 0,
            d2 > 0,
    ;
    assert(left == 0 <==> right == 0) by (nonlinear_arith)
        requires
            left * d2 == right * d1,
            d1 > 0,
            d2 > 0,
    ;
}

/// A significand within half a step of the value names the nearest pattern.
pub proof fn lemma_nearest_parts(num: int, den: int, s: nat, m: int)
    requires
        den > 0,
        0 <= m <= 2 * BINADE,
        s > 0 ==> m >= BINADE && num >= den * (BINADE * pow2(s)),
        2 * num <= den * ((2 * m + 1) * pow2(s)),
        2 * num == den * ((2 * m + 1) * pow2(s)) ==> m % 2 == 0,
        2 * num >= den * ((2 * m - 1) * pow2(s)),
        2 * num == den * ((2 * m - 1) * pow2(s)) ==> m % 2 == 0,
    ensures
        rounds_to(
            num,
            den,
            if s * BINADE + m <= INFINITY {
                s * BINADE + m
            } else {
                INFINITY as int
            },
        ),
{
    let p: int = pow2(s) as int;
    let k: int = s * BINADE + m;
    lemma_pow2_pos(s);
    lemma_magnitude_parts(s, m);
    assert(k % 2 == m % 2);
    if k < INFINITY {
        lemma_magnitude_step(k);
        let sum: int = magnitude(k) + magnitude(k + 1);
        let bound: int = (2 * m + 1) * p;
        assert(bound == m * p + (m * p + p)) by (nonlinear_arith)
            requires
                bound == (2 * m + 1) * p,
        ;
        if m == 2 * BINADE {
            assert(k / BINADE as int == s + 2);
            lemma_pow2_unfold((s + 1) as nat);
            assert(den * bound < den * sum) by (nonlinear_arith)
                requires
                    den > 0,
                    bound < sum,
            ;
        } else {
            if s > 0 {
                assert(k / BINADE as int == s + 1);
            }
            assert(exponent_of(k) == s);
            assert(bound == sum);
        }
    }
    if 0 < k <= INFINITY {
        let sum: int = magnitude(k - 1) + magnitude(k);
        let bound: int = (2 * m - 1) * p;
        if s == 0 || m > BINADE {
            lemma_magnitude_parts(s, m - 1);
            assert(bound == (m - 1) * p + m * p) by (nonlinear_arith)
                requires
                    bound == (2 * m - 1) * p,
            ;
        } else {
            lemma_magnitude_increases(k - 1, k);
            let value: int = BINADE * p;
            assert(den * sum < 2 * num) by (nonlinear_arith)
                requires
                    den > 0,
                    sum < 2 * value,
                    num >= den * value,
            ;
        }
    }
    if k > INFINITY {
        assert(s >= 254);
        lemma_magnitude_parts(254, BINADE as int);
        let top: int = magnitude(INFINITY as int);
        let sum: int = magnitude(INFINITY - 1) + top;
        lemma_magnitude_increases(INFINITY - 1, INFINITY as int);
        if s > 254 {
            lemma_pow2_strictly_increases(254, s);
        }
        let value: int = BINADE * p;
        assert(den * sum < 2 * num) by (nonlinear_arith)
            requires
                den > 0,
                sum < 2 * value,
                num >= den * value,
        ;
    }
}

/// The integer nearest to `n / d`, ties to even.
fn divide_to_even(n: u128, d: u128) -> (m: u128)
    requires
        0 < d,
        n < 0x4000_0000_0000_0000_0000_0000_0000_0000,
        d < 0x4000_0000_0000_0000_0000_0000_0000_0000,
    ensures
        2 * n <= (2 * m + 1) * d,
        2 * n == (2 * m + 1) * d ==> m % 2 == 0,
        2 * n >= (2 * m - 1) * d,
        2 * n == (2 * m - 1) * d ==> m % 2 == 0,
        m == n / d || m == n / d + 1,
{
    let q: u128 = n / d;
    let r: u128 = n % d;
    assert(n == q * d + r && q <= n) by (nonlinear_arith)
        requires
            d > 0,
            q == n / d,
            r == n % d,
    ;
    assert((2 * q + 1) * d == 2 * (q * d) + d) by (nonlinear_arith);
    assert((2 * q - 1) * d == 2 * (q * d) - d) by (nonlinear_arith);
    assert((2 * (q + 1) + 1) * d == 2 * (q * d) + 3 * d) by (nonlinear_arith);
    assert((2 * (q + 1) - 1) * d == 2 * (q * d) + d) by (nonlinear_arith);
    if 2 * r < d || (2 * r == d && q % 2 == 0) {
        q
    } else {
        q + 1
    }
}

/// The numerator of `num * 2^e / den`.
pub open spec fn scaled_num(num: int, e: int) -> int {
    if e >= 0 {
        num * pow2(e as nat)
    } else {
        num
    }
}

/// The denominator of `num * 2^e / den`.
pub open spec fn scaled_den(den: int, e: int) -> int {
    if e >= 0 {
        den
    } else {
        den * pow2((-e) as nat)
    }
}

/// The significand and the exponent that the search arrived at give the nearest pattern.
proof fn lemma_search_result(vn: int, vd: int, n: int, d: int, s: nat, m: int)
    requires
        vd > 0,
        d > 0,
        n >= 0,
        n * pow2(s) * vd == vn * d,
        n < 2 * BINADE * d,
        s > 0 ==> n >= BINADE * d,
        2 * n <= (2 * m + 1) * d,
        2 * n == (2 * m + 1) * d ==> m % 2 == 0,
        2 * n >= (2 * m - 1) * d,
        2 * n == (2 * m - 1) * d ==> m % 2 == 0,
        m == n / d || m == n / d + 1,
    ensures
        0 <= m <= 2 * BINADE,
        rounds_to(
            vn,
            vd,
            if s * BINADE + m <= INFINITY {
                s * BINADE + m
            } else {
                INFINITY as int
            },
        ),
{
    let p: int = pow2(s) as int;
    lemma_pow2_pos(s);
    assert(0 <= n / d < 2 * BINADE && (s > 0 ==> n / d >= BINADE)) by (nonlinear_arith)
        requires
            d > 0,
            n >= 0,
            n < 2 * BINADE * d,
            s > 0 ==> n >= BINADE * d,
    ;
    lemma_scale_bound(vn, vd, n, d, p, 2 * m + 1);
    lemma_scale_bound(vn, vd, n, d, p, 2 * m - 1);
    lemma_scale_bound(vn, vd, n, d, p, 2 * (BINADE as int));
    if s > 0 {
        assert(2 * n >= 2 * BINADE * d) by (nonlinear_arith)
            requires
                n >= BINADE * d,
        ;
        assert(vd * (2 * BINADE * p) == 2 * (vd * (BINADE * p))) by (nonlinear_arith);
    }
    lemma_nearest_parts(vn, vd, s, m);
}

proof fn lemma_scale_bound(vn: int, vd: int, n: int, d: int, p: int, c: int)
    requires
        vd > 0,
        d > 0,
        p > 0,
        n * p * vd == vn * d,
    ensures
        2 * n <= c * d <==> 2 * vn <= vd * (c * p),
        2 * n >= c * d <==> 2 * vn >= vd * (c * p),
{
    let left: int = 2 * n - c * d;
    let right: int = 2 * vn - vd * (c * p);
    let w: int = p * vd;
    assert(w > 0) by (nonlinear_arith)
        requires
            w == p * vd,
            p > 0,
            vd > 0,
    ;
    assert(n * w == n * p * vd) by (nonlinear_arith)
        requires
            w == p * vd,
    ;
    assert(c * d * w == vd * (c * p) * d) by (nonlinear_arith)
        requires
            w == p * vd,
    ;
    assert(left * w == 2 * (n * w) - c * d * w) by (nonlinear_arith)
        requires
            left == 2 * n - c * d,
    ;
    assert(right * d == 2 * (vn * d) - vd * (c * p) * d) by (nonlinear_arith)
        requires
            right == 2 * vn - vd * (c * p),
    ;
    assert(left <= 0 <==> right <= 0) by (nonlinear_arith)
        requires
            left * w == right * d,
            w > 0,
            d > 0,
    ;
    assert(left >= 0 <==> right >= 0) by (nonlinear_arith)
        requires
            left * w == right * d,
            w > 0,
            d > 0,
    ;
}

/// The pattern nearest to `num * 2^e / den`, ties to even.
pub(crate) fn round_ratio(num: u128, den: u128, e: i32) -> (k: u32)
    requires
        0 < num < 0x10_0000_0000_0000_0000_0000_0000,
        0 < den < 0x10_0000_0000_0000_0000_0000_0000,
        -4000 <= e <= 4000,
    ensures
        rounds_to(scaled_num(num as int, e as int), scaled_den(den as int, e as int), k as int),
{
    let ghost vn: int = scaled_num(num as int, e as int);
    let ghost vd: int = scaled_den(den as int, e as int);
    let mut n: u128 = num;
    let mut d: u128 = den;
    let mut s: i128 = e as i128;
    proof {
        lemma_pow2_pos((if e >= 0 { e as int } else { -e }) as nat);
        assert(pow2(0) == 1) by {
            vstd::arithmetic::power2::lemma2_to64();
        }
        assert(vd > 0) by (nonlinear_arith)
            requires
                den > 0,
                e >= 0 ==> vd == den,
                e < 0 ==> vd == den * pow2((-e) as nat) && pow2((-e) as nat) > 0,
        ;
        if e == 0 {
            assert(n * vd == vn * (d * pow2(0))) by (nonlinear_arith)
                requires
                    pow2(0) == 1,
                    vn == n * pow2(0),
                    vd == d,
            ;
        }
    }
    while s < 0
        invariant
            -4000 <= s <= 4000,
            vd > 0,
            vn == scaled_num(num as int, e as int),
            vd == scaled_den(den as int, e as int),
            0 < n < 0x10_0000_0000_0000_0000_0000_0000,
            0 < d < 0x40_0000_0000_0000_0000_0000_0000,
            s <= 0 ==> n * vd == vn * (d * pow2((-s) as nat)),
            s > 0 ==> n * pow2(s as nat) * vd == vn * d,
        decreases -s,
    {
        let ghost p: int = pow2((-s) as nat) as int;
        proof {
            lemma_pow2_pos((-s) as nat);
        }
        if d > 2 * n {
            proof {
                lemma_below_half(vn, vd, n as int, d as int, p);
                lemma_magnitude_parts(0, 0);
                lemma_magnitude_step(0);
                vstd::arithmetic::power2::lemma2_to64();
            }
            return 0;
        }
        proof {
            lemma_pow2_unfold((-s) as nat);
            let half: int = pow2((-s - 1) as nat) as int;
            assert(d * p == (2 * d) * half) by (nonlinear_arith)
                requires
                    p == 2 * half,
            ;
        }
        d = 2 * d;
        s = s + 1;
    }
    proof {
        if s == 0 {
            vstd::arithmetic::power2::lemma2_to64();
            assert(n * pow2(s as nat) * vd == vn * d) by (nonlinear_arith)
                requires
                    n * vd == vn * (d * pow2(0)),
                    pow2(0) == 1,
                    s == 0,
            ;
        }
    }
    while s > 0 && n < 0x80_0000 * d
        invariant
            0 <= s <= 4000,
            0 < n < 0x4000_0000_0000_0000_0000_0000_0000_0000,
            0 < d < 0x40_0000_0000_0000_0000_0000_0000,
            n * pow2(s as nat) * vd == vn * d,
        decreases s,
    {
        proof {
            lemma_pow2_unfold(s as nat);
            let half: int = pow2((s - 1) as nat) as int;
            assert(n * (2 * half) == (2 * n) * half) by (nonlinear_arith);
        }
        n = 2 * n;
        s = s - 1;
    }
    let ghost start: int = s as int;
    while n >= 0x100_0000 * d
        invariant
            0 <= s,
            0 <= start <= 4000,
            s - start <= d,
            0 < n < 0x4000_0000_0000_0000_0000_0000_0000_0000,
            0 < d < 0x80_0000_0000_0000_0000_0000_0000,
            n * pow2(s as nat) * vd == vn * d,
            s > 0 ==> n >= BINADE * d,
        decreases n - d,
    {
        proof {
            lemma_pow2_unfold((s + 1) as nat);
            let p: int = pow2(s as nat) as int;
            assert(n * (2 * p) * vd == 2 * (n * p * vd)) by (nonlinear_arith);
            assert(vn * (2 * d) == 2 * (vn * d)) by (nonlinear_arith);
        }
        d = 2 * d;
        s = s + 1;
    }
    let m: u128 = divide_to_even(n, d);
    proof {
        lemma_search_result(vn, vd, n as int, d as int, s as nat, m as int);
    }
    if s >= 255 {
        INFINITY
    } else {
        let k: u32 = s as u32 * BINADE + m as u32;
        if k <= INFINITY {
            k
        } else {
            INFINITY
        }
    }
}

proof fn lemma_below_half(vn: int, vd: int, n: int, d: int, p: int)
    requires
        vd > 0,
        n > 0,
        d > 2 * n,
        p > 0,
        n * vd == vn * (d * p),
    ensures
        2 * vn < vd,
{
    if 2 * vn >= vd {
        assert(2 * vn * (d * p) >= vd * d) by (nonlinear_arith)
            requires
                2 * vn >= vd,
                vd > 0,
                d > 0,
                p >= 1,
        ;
        assert(2 * n * vd < d * vd) by (nonlinear_arith)
            requires
                2 * n < d,
                vd > 0,
        ;
        assert(2 * vn * (d * p) == 2 * n * vd) by (nonlinear_arith)
            requires
                n * vd == vn * (d * p),
        ;
        assert(vd * d == d * vd) by (nonlinear_arith);
    }
}

/// Rounding `num * 2^(x - y) / den` is rounding the ratio of `num * 2^x` to `den * 2^y`.
pub proof fn lemma_scaled_ratio(num: int, den: int, x: nat, y: nat, k: int)
    requires
        den > 0,
        rounds_to(scaled_num(num, x - y), scaled_den(den, x - y), k),
    ensures
        rounds_to(num * pow2(x), den * pow2(y), k),
        nearest(num * pow2(x), den * pow2(y)) == k,
{
    let n1: int = scaled_num(num, x - y);
    let d1: int = scaled_den(den, x - y);
    let n2: int = num * pow2(x);
    let d2: int = den * pow2(y);
    let px: int = pow2(x) as int;
    let py: int = pow2(y) as int;
    lemma_pow2_pos(x);
    lemma_pow2_pos(y);
    if x >= y {
        let pe: int = pow2((x - y) as nat) as int;
        lemma_pow2_adds((x - y) as nat, y);
        assert((num * pe) * (den * py) == num * den * (pe * py)) by (nonlinear_arith);
        assert((num * px) * den == num * den * px) by (nonlinear_arith);
    } else {
        let pe: int = pow2((y - x) as nat) as int;
        lemma_pow2_pos((y - x) as nat);
        lemma_pow2_adds((y - x) as nat, x);
        assert(num * (den * py) == num * den * py) by (nonlinear_arith);
        assert((num * px) * (den * pe) == num * den * (pe * px)) by (nonlinear_arith);
        assert(d1 > 0) by (nonlinear_arith)
            requires
                d1 == den * pe,
                den > 0,
                pe > 0,
        ;
    }
    assert(d2 > 0) by (nonlinear_arith)
        requires
            d2 == den * py,
            den > 0,
            py > 0,
    ;
    lemma_same_ratio(n1, d1, n2, d2, k);
    lemma_nearest(n2, d2, k);
}

/// A value that is on the grid rounds to itself.
pub proof fn lemma_exact(k: int)
    requires
        0 <= k <= INFINITY,
    ensures
        rounds_to(magnitude(k), 1, k),
        nearest(magnitude(k), 1) == k,
{
    lemma_magnitude_step(k);
    if k > 0 {
        lemma_magnitude_step(k - 1);
    }
    lemma_nearest(magnitude(k), 1, k);
}

/// Zero rounds to zero.
pub proof fn lemma_zero(den: int)
    requires
        den > 0,
    ensures
        nearest(0, den) == 0,
{
    lemma_magnitude_parts(0, 0);
    lemma_magnitude_step(0);
    assert(den * (magnitude(0) + magnitude(1)) > 0) by (nonlinear_arith)
        requires
            den > 0,
            magnitude(0) + magnitude(1) > 0,
    ;
    lemma_nearest(0, den, 0);
}

/// A change far below the spacing of the grid is rounded away.
pub proof fn lemma_absorbed(k: int, delta: int)
    requires
        0 <= k < INFINITY,
        exponent_of(k) >= 2,
        -pow2((exponent_of(k) - 2) as nat) < delta < pow2((exponent_of(k) - 2) as nat),
    ensures
        magnitude(k) + delta > 0,
        nearest(magnitude(k) + delta, 1) == k,
{
    let e: nat = exponent_of(k);
    let p: int = pow2((e - 2) as nat) as int;
    lemma_pow2_unfold(e);
    lemma_pow2_unfold((e - 1) as nat);
    lemma_magnitude_step(k);
    lemma_magnitude_step(k - 1);
    assert(exponent_of(k - 1) == e || exponent_of(k - 1) == e - 1);
    assert(pow2(exponent_of(k - 1)) >= 2 * p);
    let m: int = k - e * BINADE;
    assert(m >= BINADE);
    assert(m * (4 * p) >= 4 * p) by (nonlinear_arith)
        requires
            m >= 1,
            p >= 0,
    ;
    lemma_nearest(magnitude(k) + delta, 1, k);
}

} // verus!
