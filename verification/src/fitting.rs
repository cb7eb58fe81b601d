//! The floor grid, once it is fitted, holds every robot and every waypoint.

use crate::execution::fitted;
use crate::executor::{all_ready, ExecutorView, SINGLE_ONE};
use crate::floor::{extent_of, occupied_positions, Extent, MARGIN};
use crate::grid::{LARGEST, SMALLEST};
use crate::integral::rounded_up;
use crate::messages::Position;
use crate::precision::{
    law_rounding_keeps_order, law_sum_keeps_order, law_sum_off_by_half,
    law_widening_loses_nothing, lemma_negated, lemma_off_by_half, lemma_relative_error,
    lemma_signed, lemma_times_one,
};
use crate::rounding::{
    lemma_magnitude_increases, lemma_magnitude_parts, magnitude, nearest, BINADE, INFINITY,
};
use crate::single::Single;
use vstd::arithmetic::power2::{lemma_pow2_adds, lemma_pow2_pos, pow2};
use vstd::prelude::*;

verus! {

/// The number is finite, and its amount is at most 2^26.
pub open spec fn moderate(s: Single) -> bool {
    !s.nan() && !s.infinite() && -pow2(175) <= s.units() <= pow2(175)
}

/// Both coordinates are finite, and their amounts are at most 2^26.
pub open spec fn near(p: Position) -> bool {
    moderate(p.x) && moderate(p.y)
}

/// Some powers of two in terms of 1, and the margin.
proof fn lemma_scales()
    ensures
        pow2(149) > 0,
        pow2(175) == 0x400_0000 * pow2(149),
        pow2(152) == 8 * pow2(149),
        pow2(153) == 16 * pow2(149),
        pow2(176) == 0x800_0000 * pow2(149),
        pow2(177) == 0x1000_0000 * pow2(149),
        !(Single { bits: MARGIN }).nan() && !(Single { bits: MARGIN }).infinite(),
        (Single { bits: MARGIN }).units() == 20 * pow2(149),
{
    lemma_pow2_pos(149);
    lemma_pow2_adds(3, 149);
    lemma_pow2_adds(4, 149);
    lemma_pow2_adds(26, 149);
    lemma_pow2_adds(27, 149);
    lemma_pow2_adds(28, 149);
    vstd::arithmetic::power2::lemma2_to64();
    lemma_magnitude_parts(130, 0xa0_0000);
    lemma_pow2_adds(19, 130);
    assert((Single { bits: MARGIN }).pattern() == 130 * BINADE + 0xa0_0000);
    assert(0xa0_0000 * pow2(130) == 20 * (0x8_0000 * pow2(130)));
}

/// Along one axis, cells of size 1 that are laid around a stretch with the margin hold it.
proof fn lemma_axis_held(min: Single, max: Single)
    requires
        moderate(min),
        moderate(max),
        min.units() <= max.units(),
    ensures
        ({
            let one: Single = Single { bits: SINGLE_ONE };
            let low: Single = min.difference(Single { bits: MARGIN });
            let high: Single = max.sum(Single { bits: MARGIN });
            let cells: int = high.difference(low).quotient(one).ceil_index(u32::MAX as int);
            let reach: Single = low.sum(Single::of_integer(cells).product(one));
            &&& 0 <= cells <= u32::MAX
            &&& !low.nan() && low.units() <= min.units()
            &&& !reach.nan() && max.units() <= reach.units()
        }),
{
    let one: Single = Single { bits: SINGLE_ONE };
    let margin: Single = Single { bits: MARGIN };
    let unit: int = pow2(149) as int;
    lemma_scales();
    lemma_negated(margin);
    law_sum_off_by_half(min, margin.negated(), 3);
    law_sum_off_by_half(max, margin, 3);
    let low: Single = min.difference(margin);
    let high: Single = max.sum(margin);
    lemma_negated(low);
    law_sum_off_by_half(high, low.negated(), 4);
    let width: Single = high.difference(low);
    lemma_times_one(width);
    let v: int = width.units();
    let up: int = rounded_up(v, 149);
    assert(up * unit >= v && up * unit < v + unit) by (nonlinear_arith)
        requires
            up == -((-v) / unit),
            unit > 0,
    ;
    assert(0 <= up <= 0x810_0000) by (nonlinear_arith)
        requires
            up * unit >= v,
            up * unit < v + unit,
            0 <= v,
            v <= 0x800_0100 * unit,
            unit > 0,
    ;
    let cells: int = width.quotient(one).ceil_index(u32::MAX as int);
    assert(cells == up);
    assert(0 <= up * unit <= pow2(177)) by (nonlinear_arith)
        requires
            0 <= up <= 0x810_0000,
            unit > 0,
            pow2(177) == 0x1000_0000 * unit,
    ;
    lemma_off_by_half(up * unit, 4);
    lemma_signed(false, nearest(up * unit, 1));
    let length: Single = Single::of_integer(cells);
    lemma_times_one(length);
    law_sum_keeps_order(low, length, max);
}

/// The rectangle around some positions holds each of them.
proof fn lemma_extent_holds(positions: Seq<Position>)
    requires
        forall|i: int| 0 <= i < positions.len() ==> near(#[trigger] positions[i]),
    ensures
        ({
            let extent: Extent = extent_of(positions);
            &&& !extent.min_x.nan() && !extent.min_y.nan()
            &&& !extent.max_x.nan() && !extent.max_y.nan()
            &&& positions.len() > 0 ==> {
                &&& near(Position { x: extent.min_x, y: extent.min_y })
                &&& near(Position { x: extent.max_x, y: extent.max_y })
            }
            &&& forall|i: int|
                0 <= i < positions.len() ==> {
                    &&& extent.min_x.units() <= (#[trigger] positions[i]).x.units()
                        <= extent.max_x.units()
                    &&& extent.min_y.units() <= positions[i].y.units() <= extent.max_y.units()
                }
        }),
    decreases positions.len(),
{
    if positions.len() > 0 {
        let rest: Seq<Position> = positions.drop_last();
        assert forall|i: int| 0 <= i < rest.len() implies near(#[trigger] rest[i]) by {
            assert(rest[i] == positions[i]);
        }
        lemma_extent_holds(rest);
        if rest.len() == 0 {
            lemma_beyond_moderate();
        }
        assert(near(positions[positions.len() - 1]));
        assert forall|i: int| 0 <= i < positions.len() implies {
            &&& extent_of(positions).min_x.units() <= (#[trigger] positions[i]).x.units()
                <= extent_of(positions).max_x.units()
            &&& extent_of(positions).min_y.units() <= positions[i].y.units()
                <= extent_of(positions).max_y.units()
        } by {
            if i < rest.len() {
                assert(rest[i] == positions[i]);
            }
        }
    }
}

/// The two ends of the range of singles are farther out than every moderate number.
proof fn lemma_beyond_moderate()
    ensures
        (Single { bits: LARGEST }).units() > pow2(175),
        (Single { bits: SMALLEST }).units() < -pow2(175),
{
    lemma_scales();
    lemma_magnitude_parts(153, BINADE as int);
    lemma_pow2_adds(23, 153);
    vstd::arithmetic::power2::lemma2_to64();
    lemma_magnitude_increases(154 * BINADE, LARGEST as int);
}

/// After the grid has been fitted, every robot and every waypoint is on it: with cells of size
/// 1, and as long as all coordinates are finite and of an amount of at most 2^26.
pub proof fn law_fitted_grid_holds_everything(state: ExecutorView, i: int)
    requires
        all_ready(state.fleet),
        state.grid_resolution == (Single { bits: SINGLE_ONE }),
        forall|j: int|
            0 <= j < occupied_positions(state.fleet, state.fleet.len()).len() ==> near(
                #[trigger] occupied_positions(state.fleet, state.fleet.len())[j],
            ),
        0 <= i < occupied_positions(state.fleet, state.fleet.len()).len(),
    ensures
        ({
            let p: Position = occupied_positions(state.fleet, state.fleet.len())[i];
            let after: ExecutorView = fitted(state);
            &&& !p.x.below(after.low_x()) && !after.high_x().below(p.x)
            &&& !p.y.below(after.low_y()) && !after.high_y().below(p.y)
        }),
{
    let positions: Seq<Position> = occupied_positions(state.fleet, state.fleet.len());
    let extent: Extent = extent_of(positions);
    lemma_extent_holds(positions);
    if state.outgrown_by(extent) {
        assert(near(positions[i]));
        lemma_axis_held(extent.min_x, extent.max_x);
        lemma_axis_held(extent.min_y, extent.max_y);
        law_widening_loses_nothing(extent.min_x.difference(Single { bits: MARGIN }));
        law_widening_loses_nothing(extent.min_y.difference(Single { bits: MARGIN }));
    }
}

/// The number is finite, and its amount is at most 2^25.
pub open spec fn fairly_moderate(s: Single) -> bool {
    !s.nan() && !s.infinite() && -pow2(174) <= s.units() <= pow2(174)
}

/// The numbers of cells that it takes to lay the grid around a rectangle, along both axes, are
/// 32-bit integers.
pub open spec fn cells_fit(extent: Extent, resolution: Single) -> bool {
    let margin: Single = Single { bits: MARGIN };
    let width: Single = extent.max_x.sum(margin).difference(extent.min_x.difference(margin));
    let height: Single = extent.max_y.sum(margin).difference(extent.min_y.difference(margin));
    &&& rounded_up(width.quotient(resolution).units(), 149) <= u32::MAX
    &&& rounded_up(height.quotient(resolution).units(), 149) <= u32::MAX
}

/// What is left of a length once it has been divided by the size of a cell, rounded up to whole
/// cells, and multiplied by the size again: at most three parts in 2^24 are lost.
#[verifier::rlimit(50)]
proof fn lemma_length_of_cells(d: Single, size: Single)
    requires
        !d.nan() && !d.infinite(),
        d.units() >= 32 * pow2(149),
        !size.nan() && !size.infinite(),
        size.units() > 0,
        rounded_up(d.quotient(size).units(), 149) <= u32::MAX,
    ensures
        ({
            let cells: int = d.quotient(size).ceil_index(u32::MAX as int);
            let length: Single = Single::of_integer(cells).product(size);
            &&& 0 <= cells <= u32::MAX
            &&& !length.nan() && !length.negative()
            &&& !length.infinite() ==> 0x100_0000 * length.units() >= 0xff_fffd * d.units()
        }),
{
    let u: int = pow2(149) as int;
    let v: int = d.units();
    let r: int = size.units();
    lemma_scales();
    lemma_magnitude_parts(0, 0);
    lemma_magnitude_increases(0, d.pattern());
    lemma_magnitude_increases(0, size.pattern());
    assert(!d.negative() && !size.negative());
    assert(size.pattern() > 0);
    // The quotient.
    let q: int = nearest(v * u, r);
    assert(v * u >= 0) by (nonlinear_arith)
        requires
            v >= 0,
            u > 0,
    ;
    law_rounding_keeps_order(v * u, r, v * u, r);
    lemma_signed(false, q);
    assert(d.quotient(size) == Single::signed(false, q));
    let w: int = rounded_up(magnitude(q), 149);
    lemma_magnitude_increases(0, q);
    assert(w * u >= magnitude(q) && w >= 0) by (nonlinear_arith)
        requires
            w == -((-magnitude(q)) / u),
            magnitude(q) >= 0,
            u > 0,
    ;
    let cells: int = d.quotient(size).ceil_index(u32::MAX as int);
    assert(cells == w);
    lemma_infinity();
    assert(w * u <= 0xffff_ffff * u) by (nonlinear_arith)
        requires
            w <= 0xffff_ffff,
            u > 0,
    ;
    assert(q < INFINITY);
    lemma_size_bound(size);
    assert(v * u >= r * 0x80_0000) by (nonlinear_arith)
        requires
            v >= 32 * u,
            u * u * 4 >= r * 0x80_0000,
            u > 0,
    ;
    lemma_relative_error(v * u, r);
    let quotient: int = magnitude(q);
    // The number of cells.
    assert(w >= 1) by (nonlinear_arith)
        requires
            w * u >= quotient,
            quotient > 0,
            u > 0,
    {
        assert(w * u > 0);
    }
    assert(w * u >= u) by (nonlinear_arith)
        requires
            w >= 1,
            u > 0,
    ;
    lemma_count_rounds(w * u);
    lemma_unit_large();
    let k: int = nearest(w * u, 1);
    let whole: int = magnitude(k);
    lemma_relative_error(w * u, 1);
    lemma_signed(false, k);
    assert(Single::of_integer(cells) == Single::signed(false, k));
    // Their length.
    lemma_magnitude_increases(0, k);
    assert(r * 0x2_0000_0000 >= v) by (nonlinear_arith)
        requires
            0x100_0000 * (v * u - r * quotient) <= v * u,
            quotient <= 0xffff_ffff * u,
            v >= 0,
            r > 0,
            u > 0,
    {
        assert(r * quotient <= r * (0xffff_ffff * u));
        assert(r * (0xffff_ffff * u) == (0xffff_ffff * r) * u);
        assert(0xff_ffff * (v * u) <= 0x100_0000 * ((0xffff_ffff * r) * u));
        assert(0xff_ffff * v <= 0x100_0000 * (0xffff_ffff * r));
    }
    assert(whole * r >= u * 0x80_0000) by (nonlinear_arith)
        requires
            0x100_0000 * (w * u - whole) <= w * u,
            w * u >= u,
            r * 0x2_0000_0000 >= v,
            v >= 32 * u,
            u >= 0x100_0000_0000_0000,
    {
        assert(2 * whole >= u);
        assert(r >= 0x100_0000);
        assert((2 * whole) * r >= u * r);
        assert(u * r >= u * 0x100_0000);
    }
    law_rounding_keeps_order(whole * r, u, whole * r, u);
    let l: int = nearest(whole * r, u);
    lemma_signed(false, l);
    let length: Single = Single::of_integer(cells).product(size);
    assert(length == Single::signed(false, l));
    if !length.infinite() {
        lemma_relative_error(whole * r, u);
        lemma_three_roundings(v, u, r, quotient, w, whole, magnitude(l));
    }
}

/// Three roundings, each by at most one part in 2^24, lose at most three parts.
proof fn lemma_three_roundings(v: int, u: int, r: int, q: int, w: int, whole: int, length: int)
    requires
        v >= 0,
        u > 0,
        r > 0,
        0x100_0000 * (v * u - r * q) <= v * u,
        w * u >= q,
        0x100_0000 * (w * u - whole) <= w * u,
        0x100_0000 * (whole * r - u * length) <= whole * r,
    ensures
        0x100_0000 * length >= 0xff_fffd * v,
{
    assert(0xff_ffff * (whole * r) <= 0x100_0000 * (u * length));
    assert(0xff_ffff * ((w * u) * r) <= 0x100_0000 * (whole * r)) by (nonlinear_arith)
        requires
            0x100_0000 * (w * u - whole) <= w * u,
            r > 0,
    ;
    assert(r * q <= (w * u) * r) by (nonlinear_arith)
        requires
            w * u >= q,
            r > 0,
    ;
    assert(0xff_ffff * (v * u) <= 0x100_0000 * (r * q));
    assert(v * u >= 0) by (nonlinear_arith)
        requires
            v >= 0,
            u > 0,
    ;
    lemma_chain(v * u, r * q, (w * u) * r, whole * r, u * length);
    assert(0xff_fffd * v <= 0x100_0000 * length) by (nonlinear_arith)
        requires
            0xff_fffd * (v * u) <= 0x100_0000 * (u * length),
            u > 0,
    {
        assert((0xff_fffd * v) * u <= (0x100_0000 * length) * u);
    }
}

/// The chain of inequalities behind three roundings.
proof fn lemma_chain(a: int, b: int, c: int, d: int, e: int)
    requires
        0 <= a,
        0xff_ffff * a <= 0x100_0000 * b,
        b <= c,
        0xff_ffff * c <= 0x100_0000 * d,
        0xff_ffff * d <= 0x100_0000 * e,
    ensures
        0xff_fffd * a <= 0x100_0000 * e,
{
}

/// Infinity is beyond 2^32.
proof fn lemma_infinity()
    ensures
        magnitude(INFINITY as int) > 0xffff_ffff * pow2(149),
{
    lemma_magnitude_parts(254, BINADE as int);
    lemma_pow2_adds(23, 254);
    lemma_pow2_adds(128, 149);
    lemma_pow2_adds(64, 64);
    vstd::arithmetic::power2::lemma2_to64();
    vstd::arithmetic::power2::lemma2_to64_rest();
    lemma_pow2_pos(149);
    assert(BINADE * pow2(254) == pow2(277));
    assert(pow2(277) > 0xffff_ffff * pow2(149)) by (nonlinear_arith)
        requires
            pow2(277) == pow2(128) * pow2(149),
            pow2(128) == 0x1_0000_0000_0000_0000 * 0x1_0000_0000_0000_0000,
            pow2(149) > 0,
    ;
}

/// 1 is more than 2^56 units.
proof fn lemma_unit_large()
    ensures
        pow2(149) >= 0x100_0000_0000_0000,
{
    vstd::arithmetic::power2::lemma2_to64_rest();
    vstd::arithmetic::power2::lemma_pow2_strictly_increases(56, 149);
}

/// No finite size of a cell is so large that a length of 1 could not be divided by it in full
/// precision.
proof fn lemma_size_bound(size: Single)
    requires
        !size.nan() && !size.infinite(),
        size.units() > 0,
    ensures
        pow2(149) * pow2(149) * 4 >= size.units() * 0x80_0000,
{
    lemma_magnitude_increases(size.pattern(), INFINITY as int);
    lemma_magnitude_parts(254, BINADE as int);
    lemma_pow2_adds(23, 254);
    lemma_pow2_adds(149, 149);
    lemma_pow2_adds(2, 298);
    lemma_pow2_adds(23, 277);
    vstd::arithmetic::power2::lemma2_to64();
}

/// A whole number of cells is not rounded to infinity.
proof fn lemma_count_rounds(v: int)
    requires
        0 <= v <= 0xffff_ffff * pow2(149),
    ensures
        nearest(v, 1) < INFINITY,
{
    lemma_pow2_adds(33, 149);
    vstd::arithmetic::power2::lemma2_to64_rest();
    lemma_pow2_pos(149);
    lemma_off_by_half(v, 9);
}

/// Along one axis, cells of any size that are laid around a stretch with the margin hold it.
#[verifier::rlimit(50)]
proof fn lemma_axis_held_by_cells(min: Single, max: Single, size: Single)
    requires
        fairly_moderate(min),
        fairly_moderate(max),
        min.units() <= max.units(),
        !size.nan() && !size.infinite(),
        size.units() > 0,
        rounded_up(
            max.sum(Single { bits: MARGIN }).difference(
                min.difference(Single { bits: MARGIN }),
            ).quotient(size).units(),
            149,
        ) <= u32::MAX,
    ensures
        ({
            let low: Single = min.difference(Single { bits: MARGIN });
            let high: Single = max.sum(Single { bits: MARGIN });
            let cells: int = high.difference(low).quotient(size).ceil_index(u32::MAX as int);
            let reach: Single = low.sum(Single::of_integer(cells).product(size));
            &&& 0 <= cells <= u32::MAX
            &&& !low.nan() && low.units() <= min.units()
            &&& !reach.nan() && max.units() <= reach.units()
        }),
{
    let margin: Single = Single { bits: MARGIN };
    lemma_scales();
    lemma_finer_scales();
    lemma_negated(margin);
    law_sum_off_by_half(min, margin.negated(), 2);
    law_sum_off_by_half(max, margin, 2);
    let low: Single = min.difference(margin);
    let high: Single = max.sum(margin);
    lemma_negated(low);
    law_sum_off_by_half(high, low.negated(), 3);
    let width: Single = high.difference(low);
    lemma_length_of_cells(width, size);
    let cells: int = width.quotient(size).ceil_index(u32::MAX as int);
    let length: Single = Single::of_integer(cells).product(size);
    if length.infinite() {
        lemma_magnitude_increases(max.pattern(), INFINITY as int);
        lemma_magnitude_increases(0, INFINITY as int);
        lemma_magnitude_parts(0, 0);
        lemma_magnitude_increases(0, max.pattern());
    } else {
        law_sum_keeps_order(low, length, max);
    }
}

/// More powers of two in terms of 1.
proof fn lemma_finer_scales()
    ensures
        pow2(151) == 4 * pow2(149),
        pow2(152) == 8 * pow2(149),
        pow2(174) == 0x200_0000 * pow2(149),
        pow2(175) == 0x400_0000 * pow2(149),
        pow2(176) == 0x800_0000 * pow2(149),
{
    lemma_pow2_adds(2, 149);
    lemma_pow2_adds(3, 149);
    lemma_pow2_adds(25, 149);
    lemma_pow2_adds(26, 149);
    lemma_pow2_adds(27, 149);
    vstd::arithmetic::power2::lemma2_to64();
}

/// After the grid has been fitted, every robot and every waypoint is on it, whatever the size of
/// its cells: as long as the size is positive and finite, all coordinates are finite and of an
/// amount of at most 2^25, and the numbers of cells that it takes are 32-bit integers.
pub proof fn law_fitted_grid_of_any_resolution(state: ExecutorView, i: int)
    requires
        all_ready(state.fleet),
        !state.grid_resolution.nan() && !state.grid_resolution.infinite(),
        state.grid_resolution.units() > 0,
        forall|j: int|
            0 <= j < occupied_positions(state.fleet, state.fleet.len()).len() ==> {
                let p: Position = #[trigger] occupied_positions(state.fleet, state.fleet.len())[j];
                fairly_moderate(p.x) && fairly_moderate(p.y)
            },
        cells_fit(
            extent_of(occupied_positions(state.fleet, state.fleet.len())),
            state.grid_resolution,
        ),
        0 <= i < occupied_positions(state.fleet, state.fleet.len()).len(),
    ensures
        ({
            let p: Position = occupied_positions(state.fleet, state.fleet.len())[i];
            let after: ExecutorView = fitted(state);
            &&& !p.x.below(after.low_x()) && !after.high_x().below(p.x)
            &&& !p.y.below(after.low_y()) && !after.high_y().below(p.y)
        }),
{
    let positions: Seq<Position> = occupied_positions(state.fleet, state.fleet.len());
    let extent: Extent = extent_of(positions);
    lemma_scales();
    lemma_finer_scales();
    assert forall|j: int| 0 <= j < positions.len() implies near(#[trigger] positions[j]) by {
        assert(fairly_moderate(positions[j].x) && fairly_moderate(positions[j].y));
    }
    lemma_extent_holds(positions);
    lemma_extent_bounded(positions);
    if state.outgrown_by(extent) {
        lemma_axis_held_by_cells(extent.min_x, extent.max_x, state.grid_resolution);
        lemma_axis_held_by_cells(extent.min_y, extent.max_y, state.grid_resolution);
        law_widening_loses_nothing(extent.min_x.difference(Single { bits: MARGIN }));
        law_widening_loses_nothing(extent.min_y.difference(Single { bits: MARGIN }));
    }
}

/// The rectangle around some positions reaches no farther than they do.
proof fn lemma_extent_bounded(positions: Seq<Position>)
    requires
        positions.len() > 0,
        forall|i: int|
            0 <= i < positions.len() ==> fairly_moderate((#[trigger] positions[i]).x)
                && fairly_moderate(positions[i].y),
    ensures
        ({
            let extent: Extent = extent_of(positions);
            &&& fairly_moderate(extent.min_x) && fairly_moderate(extent.max_x)
            &&& fairly_moderate(extent.min_y) && fairly_moderate(extent.max_y)
        }),
    decreases positions.len(),
{
    let rest: Seq<Position> = positions.drop_last();
    assert(fairly_moderate(positions[positions.len() - 1].x));
    if rest.len() > 0 {
        assert forall|i: int| 0 <= i < rest.len() implies fairly_moderate((#[trigger] rest[i]).x)
            && fairly_moderate(rest[i].y) by {
            assert(rest[i] == positions[i]);
        }
        lemma_extent_bounded(rest);
    } else {
        lemma_scales();
        lemma_finer_scales();
        lemma_beyond_moderate();
        assert(extent_of(rest) == Extent::nothing());
    }
}

} // verus!
