//! What the cells of a region hold, and what they depend on.

use crate::grid::{greatest, least, region_bounds, well_shaped, LARGEST, SMALLEST};
use crate::precision::{law_rounding_keeps_order, lemma_signed};
use crate::region::{DomainRegion, RegionView};
use crate::rounding::{
    lemma_magnitude_increases, lemma_magnitude_parts, lemma_zero, magnitude, nearest, INFINITY,
};
use crate::single::Single;
use vstd::arithmetic::power2::{lemma_pow2_pos, pow2};
use vstd::prelude::*;

verus! {

/// The least coordinate is a number, and no number among the coordinates is below it.
proof fn lemma_least(points: Seq<Single>, axis: int, n: nat)
    ensures
        !least(points, axis, n).nan(),
        forall|i: int|
            0 <= i < n && !(#[trigger] points[2 * i + axis]).nan() ==> least(
                points,
                axis,
                n,
            ).units() <= points[2 * i + axis].units(),
    decreases n,
{
    if n > 0 {
        lemma_least(points, axis, (n - 1) as nat);
        assert forall|i: int|
            0 <= i < n && !(#[trigger] points[2 * i + axis]).nan() implies least(
            points,
            axis,
            n,
        ).units() <= points[2 * i + axis].units() by {
            if i == n - 1 {
                assert(points[2 * i + axis] == points[2 * (n - 1) + axis]);
            }
        }
    }
}

/// The greatest coordinate is a number, and no number among the coordinates is above it.
proof fn lemma_greatest(points: Seq<Single>, axis: int, n: nat)
    ensures
        !greatest(points, axis, n).nan(),
        forall|i: int|
            0 <= i < n && !(#[trigger] points[2 * i + axis]).nan() ==> greatest(
                points,
                axis,
                n,
            ).units() >= points[2 * i + axis].units(),
    decreases n,
{
    if n > 0 {
        lemma_greatest(points, axis, (n - 1) as nat);
        assert forall|i: int|
            0 <= i < n && !(#[trigger] points[2 * i + axis]).nan() implies greatest(
            points,
            axis,
            n,
        ).units() >= points[2 * i + axis].units() by {
            if i == n - 1 {
                assert(points[2 * i + axis] == points[2 * (n - 1) + axis]);
            }
        }
    }
}

/// Division by a positive number keeps the order.
#[verifier::rlimit(50)]
pub proof fn law_division_keeps_order(a: Single, b: Single, d: Single)
    requires
        !a.nan(),
        !b.nan(),
        0 <= a.units() <= b.units(),
        !d.nan() && !d.infinite(),
        d.units() > 0,
    ensures
        !a.quotient(d).nan(),
        !b.quotient(d).nan(),
        0 <= a.quotient(d).units() <= b.quotient(d).units(),
{
    lemma_magnitude_parts(0, 0);
    lemma_magnitude_increases(0, a.pattern());
    lemma_magnitude_increases(0, b.pattern());
    lemma_magnitude_increases(0, d.pattern());
    assert(!d.negative() && d.pattern() > 0);
    if b.pattern() < a.pattern() {
        lemma_magnitude_increases(b.pattern(), a.pattern());
    }
    let p: int = pow2(149) as int;
    lemma_pow2_pos(149);
    let den: int = magnitude(d.pattern());
    lemma_zero(den);
    lemma_magnitude_increases(0, INFINITY as int);
    if !a.infinite() {
        let na: int = magnitude(a.pattern()) * p;
        assert(na >= 0) by (nonlinear_arith)
            requires
                na == magnitude(a.pattern()) * p,
                magnitude(a.pattern()) >= 0,
                p > 0,
        ;
        law_rounding_keeps_order(na, den, na, den);
        lemma_signed(a.negative(), nearest(na, den));
        lemma_magnitude_increases(nearest(na, den), INFINITY as int);
        if a.negative() {
            assert(na == 0) by (nonlinear_arith)
                requires
                    na == magnitude(a.pattern()) * p,
                    magnitude(a.pattern()) == 0,
            ;
        }
        if !b.infinite() {
            let nb: int = magnitude(b.pattern()) * p;
            assert(na <= nb && na * den <= nb * den) by (nonlinear_arith)
                requires
                    na == magnitude(a.pattern()) * p,
                    nb == magnitude(b.pattern()) * p,
                    magnitude(a.pattern()) <= magnitude(b.pattern()),
                    p > 0,
                    den > 0,
            ;
            law_rounding_keeps_order(na, den, nb, den);
            lemma_signed(b.negative(), nearest(nb, den));
            lemma_magnitude_increases(nearest(na, den), nearest(nb, den));
            if b.negative() {
                assert(nb == 0) by (nonlinear_arith)
                    requires
                        nb == magnitude(b.pattern()) * p,
                        magnitude(b.pattern()) == 0,
                ;
            }
            lemma_magnitude_increases(0, nearest(na, den));
        } else {
            lemma_signed(b.negative(), INFINITY as int);
            lemma_magnitude_increases(0, nearest(na, den));
        }
    } else {
        lemma_signed(a.negative(), INFINITY as int);
        lemma_signed(b.negative(), INFINITY as int);
    }
}

/// Rounding down keeps the order, and does not pass rounding up.
proof fn lemma_index_order(a: Single, b: Single)
    requires
        !a.nan(),
        !b.nan(),
        0 <= a.units() <= b.units(),
    ensures
        a.floor_index() <= b.floor_index(),
        b.floor_index() <= b.ceil_index(usize::MAX as int),
        a.ceil_index(usize::MAX as int) <= b.ceil_index(usize::MAX as int),
{
    let p: int = pow2(149) as int;
    let u: int = a.units();
    let v: int = b.units();
    lemma_pow2_pos(149);
    assert(u / p <= v / p) by (nonlinear_arith)
        requires
            u <= v,
            p > 0,
    ;
    assert((-v) / p <= (-u) / p) by (nonlinear_arith)
        requires
            u <= v,
            p > 0,
    ;
    assert(v / p <= -((-v) / p)) by (nonlinear_arith)
        requires
            p > 0,
    ;
}

/// The cells of a region hold all its points: the cell that a point lies in, by the rounded
/// quotient of its coordinates and the size of a cell, is among them.
#[verifier::rlimit(50)]
pub proof fn law_points_are_covered(region: RegionView, cell_size: Single, i: int)
    requires
        well_shaped(region),
        !cell_size.nan() && !cell_size.infinite(),
        cell_size.units() > 0,
        0 <= i < region.points.len() / 2,
        !region.points[2 * i].nan() && region.points[2 * i].units() >= 0,
        !region.points[2 * i + 1].nan() && region.points[2 * i + 1].units() >= 0,
    ensures
        region_bounds(region, cell_size) matches Some(range) && range.contains(
            (
                region.points[2 * i].quotient(cell_size).floor_index(),
                region.points[2 * i + 1].quotient(cell_size).floor_index(),
            ),
        ),
{
    let n: nat = (region.points.len() / 2) as nat;
    let zero: Single = Single { bits: 0 };
    let x: Single = region.points[2 * i];
    let y: Single = region.points[2 * i + 1];
    let min_x: Single = least(region.points, 0, n);
    let min_y: Single = least(region.points, 1, n);
    let max_x: Single = greatest(region.points, 0, n);
    let max_y: Single = greatest(region.points, 1, n);
    lemma_magnitude_parts(0, 0);
    lemma_least(region.points, 0, n);
    lemma_least(region.points, 1, n);
    lemma_greatest(region.points, 0, n);
    lemma_greatest(region.points, 1, n);
    assert(region.points[2 * i + 0] == x);
    assert(zero.units() == 0 && !zero.nan());
    let cut: bool = min_x.below(zero) || min_y.below(zero);
    let low_x: Single = if cut {
        min_x.greater(zero)
    } else {
        min_x
    };
    let low_y: Single = if cut {
        min_y.greater(zero)
    } else {
        min_y
    };
    law_division_keeps_order(low_x, x, cell_size);
    law_division_keeps_order(x, max_x, cell_size);
    law_division_keeps_order(low_y, y, cell_size);
    law_division_keeps_order(y, max_y, cell_size);
    lemma_index_order(low_x.quotient(cell_size), x.quotient(cell_size));
    lemma_index_order(x.quotient(cell_size), max_x.quotient(cell_size));
    lemma_index_order(low_y.quotient(cell_size), y.quotient(cell_size));
    lemma_index_order(y.quotient(cell_size), max_y.quotient(cell_size));
}

/// The points of a region, each a pair of coordinates.
pub open spec fn pairs(points: Seq<Single>) -> Seq<(Single, Single)> {
    Seq::new((points.len() / 2) as nat, |i: int| (points[2 * i], points[2 * i + 1]))
}

/// One coordinate of a point.
spec fn coordinate(pair: (Single, Single), axis: int) -> Single {
    if axis == 0 {
        pair.0
    } else {
        pair.1
    }
}

/// The least coordinate is the one it starts from or that of a point.
proof fn lemma_least_occurs(points: Seq<Single>, axis: int, n: nat)
    requires
        axis == 0 || axis == 1,
        n <= points.len() / 2,
    ensures
        least(points, axis, n) == (Single { bits: LARGEST }) || exists|i: int|
            0 <= i < n && least(points, axis, n) == coordinate(#[trigger] pairs(points)[i], axis),
        least(points, axis, n).units() <= (Single { bits: LARGEST }).units(),
    decreases n,
{
    if n > 0 {
        lemma_least(points, axis, (n - 1) as nat);
        lemma_least_occurs(points, axis, (n - 1) as nat);
        assert(coordinate(pairs(points)[n - 1], axis) == points[2 * (n - 1) + axis]);
    }
}

/// The greatest coordinate is the one it starts from or that of a point.
proof fn lemma_greatest_occurs(points: Seq<Single>, axis: int, n: nat)
    requires
        axis == 0 || axis == 1,
        n <= points.len() / 2,
    ensures
        greatest(points, axis, n) == (Single { bits: SMALLEST }) || exists|i: int|
            0 <= i < n && greatest(points, axis, n) == coordinate(
                #[trigger] pairs(points)[i],
                axis,
            ),
        greatest(points, axis, n).units() >= (Single { bits: SMALLEST }).units(),
    decreases n,
{
    if n > 0 {
        lemma_greatest(points, axis, (n - 1) as nat);
        lemma_greatest_occurs(points, axis, (n - 1) as nat);
        assert(coordinate(pairs(points)[n - 1], axis) == points[2 * (n - 1) + axis]);
    }
}

/// With more points, the least coordinate is no greater and the greatest one no less.
proof fn lemma_more_points(few: Seq<Single>, many: Seq<Single>, axis: int)
    requires
        axis == 0 || axis == 1,
        forall|pair: (Single, Single)| #[trigger]
            pairs(few).contains(pair) ==> pairs(many).contains(pair),
    ensures
        least(many, axis, (many.len() / 2) as nat).units() <= least(
            few,
            axis,
            (few.len() / 2) as nat,
        ).units(),
        greatest(many, axis, (many.len() / 2) as nat).units() >= greatest(
            few,
            axis,
            (few.len() / 2) as nat,
        ).units(),
{
    let n: nat = (few.len() / 2) as nat;
    let m: nat = (many.len() / 2) as nat;
    lemma_least(few, axis, n);
    lemma_greatest(few, axis, n);
    lemma_least(many, axis, m);
    lemma_greatest(many, axis, m);
    lemma_least_occurs(few, axis, n);
    lemma_greatest_occurs(few, axis, n);
    lemma_least_occurs(many, axis, m);
    lemma_greatest_occurs(many, axis, m);
    assert forall|i: int| 0 <= i < n && !coordinate(#[trigger] pairs(few)[i], axis).nan() implies {
        let c: Single = coordinate(pairs(few)[i], axis);
        least(many, axis, m).units() <= c.units() <= greatest(many, axis, m).units()
    } by {
        let pair: (Single, Single) = pairs(few)[i];
        assert(pairs(few).contains(pair));
        let j: int = choose|j: int| 0 <= j < pairs(many).len() && pairs(many)[j] == pair;
        assert(many[2 * j + axis] == coordinate(pair, axis));
    }
}

/// Two numbers of the same value are the same, but for the sign of zero.
proof fn lemma_same_units(a: Single, b: Single)
    requires
        !a.nan(),
        !b.nan(),
        a.units() == b.units(),
    ensures
        a == b || (a.pattern() == 0 && b.pattern() == 0),
{
    lemma_magnitude_parts(0, 0);
    lemma_magnitude_increases(0, a.pattern());
    lemma_magnitude_increases(0, b.pattern());
    if a.pattern() < b.pattern() {
        lemma_magnitude_increases(a.pattern(), b.pattern());
    } else if b.pattern() < a.pattern() {
        lemma_magnitude_increases(b.pattern(), a.pattern());
    }
}

/// A zero of either sign lies in the first cell, whatever the size of a cell.
proof fn lemma_zero_index(a: Single, d: Single)
    requires
        a.pattern() == 0,
    ensures
        a.quotient(d).floor_index() == 0,
        a.quotient(d).ceil_index(usize::MAX as int) == 0,
{
    let q: Single = a.quotient(d);
    lemma_magnitude_parts(0, 0);
    lemma_pow2_pos(149);
    lemma_signed(a.negative() != d.negative(), 0);
    if !d.nan() && !d.infinite() && d.pattern() != 0 {
        lemma_magnitude_increases(0, d.pattern());
        lemma_zero(magnitude(d.pattern()));
        assert(magnitude(a.pattern()) * pow2(149) == 0) by (nonlinear_arith)
            requires
                magnitude(a.pattern()) == 0,
        ;
    }
    if !q.nan() {
        assert(q.units() == 0);
        assert(0int / (pow2(149) as int) == 0) by (nonlinear_arith)
            requires
                pow2(149) > 0,
        ;
    }
}

/// Numbers of the same value lie in the same cell.
proof fn lemma_same_index(a: Single, b: Single, d: Single)
    requires
        !a.nan(),
        !b.nan(),
        a.units() == b.units(),
    ensures
        a.quotient(d).floor_index() == b.quotient(d).floor_index(),
        a.quotient(d).ceil_index(usize::MAX as int) == b.quotient(d).ceil_index(usize::MAX as int),
{
    lemma_same_units(a, b);
    if a != b {
        lemma_zero_index(a, d);
        lemma_zero_index(b, d);
    }
}

/// The same points, in whatever order, have extremes of the same value.
proof fn lemma_same_extremes(a: Seq<Single>, b: Seq<Single>, axis: int)
    requires
        axis == 0 || axis == 1,
        pairs(a).to_multiset() == pairs(b).to_multiset(),
    ensures
        ({
            let n: nat = (a.len() / 2) as nat;
            let m: nat = (b.len() / 2) as nat;
            &&& !least(a, axis, n).nan() && !least(b, axis, m).nan()
            &&& !greatest(a, axis, n).nan() && !greatest(b, axis, m).nan()
            &&& least(a, axis, n).units() == least(b, axis, m).units()
            &&& greatest(a, axis, n).units() == greatest(b, axis, m).units()
        }),
{
    assert forall|pair: (Single, Single)| #[trigger]
        pairs(a).contains(pair) == pairs(b).contains(pair) by {
        let first: Seq<(Single, Single)> = pairs(a);
        let second: Seq<(Single, Single)> = pairs(b);
        first.to_multiset_ensures();
        second.to_multiset_ensures();
        assert(first.contains(pair) <==> first.to_multiset().count(pair) > 0);
        assert(second.contains(pair) <==> second.to_multiset().count(pair) > 0);
    }
    lemma_more_points(a, b, axis);
    lemma_more_points(b, a, axis);
    lemma_least(a, axis, (a.len() / 2) as nat);
    lemma_least(b, axis, (b.len() / 2) as nat);
    lemma_greatest(a, axis, (a.len() / 2) as nat);
    lemma_greatest(b, axis, (b.len() / 2) as nat);
}

/// The order of the points does not matter: two regions of the same kind with the same points
/// cover the same cells.
#[verifier::rlimit(50)]
pub proof fn law_order_of_points_does_not_matter(a: RegionView, b: RegionView, cell_size: Single)
    requires
        a.hint == b.hint,
        a.points.len() == b.points.len(),
        pairs(a.points).to_multiset() == pairs(b.points).to_multiset(),
    ensures
        region_bounds(a, cell_size) == region_bounds(b, cell_size),
{
    let n: nat = (a.points.len() / 2) as nat;
    let zero: Single = Single { bits: 0 };
    lemma_magnitude_parts(0, 0);
    lemma_same_extremes(a.points, b.points, 0);
    lemma_same_extremes(a.points, b.points, 1);
    let ax: Single = least(a.points, 0, n);
    let bx: Single = least(b.points, 0, n);
    let ay: Single = least(a.points, 1, n);
    let by: Single = least(b.points, 1, n);
    lemma_same_index(ax, bx, cell_size);
    lemma_same_index(ay, by, cell_size);
    lemma_same_index(ax.greater(zero), bx.greater(zero), cell_size);
    lemma_same_index(ay.greater(zero), by.greater(zero), cell_size);
    lemma_same_index(greatest(a.points, 0, n), greatest(b.points, 0, n), cell_size);
    lemma_same_index(greatest(a.points, 1, n), greatest(b.points, 1, n), cell_size);
}

/// All coordinates are finite.
pub open spec fn all_finite(points: Seq<Single>) -> bool {
    forall|i: int|
        0 <= i < points.len() ==> !(#[trigger] points[i]).nan() && !points[i].infinite()
}

/// The cells from one coordinate to another, given in cells, are among those from a lesser one to
/// a greater one.
proof fn lemma_wider(low: Single, lower: Single, high: Single, higher: Single, d: Single)
    requires
        !low.nan() && !low.infinite(),
        !lower.nan() && !lower.infinite(),
        !high.nan() && !high.infinite(),
        !higher.nan() && !higher.infinite(),
        0 <= lower.units() <= low.units(),
        0 <= high.units() <= higher.units(),
        !d.nan(),
        d.units() > 0,
    ensures
        lower.quotient(d).floor_index() <= low.quotient(d).floor_index(),
        high.quotient(d).ceil_index(usize::MAX as int) <= higher.quotient(d).ceil_index(
            usize::MAX as int,
        ),
{
    if d.infinite() {
        lemma_magnitude_parts(0, 0);
        lemma_pow2_pos(149);
        lemma_signed(true, 0);
        lemma_signed(false, 0);
        assert(0int / (pow2(149) as int) == 0) by (nonlinear_arith)
            requires
                pow2(149) > 0,
        ;
    } else {
        law_division_keeps_order(lower, low, d);
        law_division_keeps_order(high, higher, d);
        lemma_index_order(lower.quotient(d), low.quotient(d));
        lemma_index_order(high.quotient(d), higher.quotient(d));
    }
}

/// With one point more a rectangle covers no fewer cells: none of those it had is lost.
#[verifier::rlimit(50)]
pub proof fn law_one_more_point_never_shrinks(
    points: Seq<Single>,
    x: Single,
    y: Single,
    cell_size: Single,
)
    requires
        points.len() >= 2,
        points.len() % 2 == 0,
        all_finite(points.push(x).push(y)),
        !cell_size.nan(),
        cell_size.units() > 0,
    ensures
        ({
            let few: RegionView = RegionView {
                points,
                hint: DomainRegion::HINT_AXIS_ALIGNED_RECTANGLE,
            };
            let many: RegionView = RegionView { points: points.push(x).push(y), ..few };
            region_bounds(few, cell_size) matches Some(inner) ==> region_bounds(many, cell_size)
                matches Some(outer) && outer.start_x <= inner.start_x && inner.end_x <= outer.end_x
                && outer.start_y <= inner.start_y && inner.end_y <= outer.end_y
        }),
{
    let few: RegionView = RegionView { points, hint: DomainRegion::HINT_AXIS_ALIGNED_RECTANGLE };
    let longer: Seq<Single> = points.push(x).push(y);
    let many: RegionView = RegionView { points: longer, ..few };
    let n: nat = (points.len() / 2) as nat;
    let m: nat = (longer.len() / 2) as nat;
    assert forall|i: int| 0 <= i < points.len() implies !(#[trigger] points[i]).nan()
        && !points[i].infinite() by {
        assert(longer[i] == points[i]);
    }
    assert forall|pair: (Single, Single)| #[trigger] pairs(points).contains(pair) implies pairs(
        longer,
    ).contains(pair) by {
        let i: int = choose|i: int| 0 <= i < pairs(points).len() && pairs(points)[i] == pair;
        assert(pairs(longer)[i] == pair);
    }
    if region_bounds(few, cell_size) is Some {
        lemma_more_points(points, longer, 0);
        lemma_more_points(points, longer, 1);
        lemma_extremes(points, 0);
        lemma_extremes(points, 1);
        lemma_extremes(longer, 0);
        lemma_extremes(longer, 1);
        lemma_magnitude_parts(0, 0);
        let zero: Single = Single { bits: 0 };
        let cut: bool = least(points, 0, n).below(zero) || least(points, 1, n).below(zero);
        let cut_more: bool = least(longer, 0, m).below(zero) || least(longer, 1, m).below(zero);
        let low_x: Single = if cut {
            least(points, 0, n).greater(zero)
        } else {
            least(points, 0, n)
        };
        let low_y: Single = if cut {
            least(points, 1, n).greater(zero)
        } else {
            least(points, 1, n)
        };
        let lower_x: Single = if cut_more {
            least(longer, 0, m).greater(zero)
        } else {
            least(longer, 0, m)
        };
        let lower_y: Single = if cut_more {
            least(longer, 1, m).greater(zero)
        } else {
            least(longer, 1, m)
        };
        lemma_wider(
            low_x,
            lower_x,
            greatest(points, 0, n),
            greatest(longer, 0, m),
            cell_size,
        );
        lemma_wider(
            low_y,
            lower_y,
            greatest(points, 1, n),
            greatest(longer, 1, m),
            cell_size,
        );
    }
}

/// Of finite coordinates, both extremes are finite and in order.
proof fn lemma_extremes(points: Seq<Single>, axis: int)
    requires
        axis == 0 || axis == 1,
        points.len() >= 2,
        all_finite(points),
    ensures
        ({
            let n: nat = (points.len() / 2) as nat;
            &&& !least(points, axis, n).nan() && !least(points, axis, n).infinite()
            &&& !greatest(points, axis, n).nan() && !greatest(points, axis, n).infinite()
            &&& least(points, axis, n).units() <= greatest(points, axis, n).units()
        }),
{
    let n: nat = (points.len() / 2) as nat;
    lemma_least(points, axis, n);
    lemma_greatest(points, axis, n);
    lemma_least_occurs(points, axis, n);
    lemma_greatest_occurs(points, axis, n);
    assert(!points[2 * 0 + axis].nan());
    assert forall|i: int| 0 <= i < n implies !coordinate(
        #[trigger] pairs(points)[i],
        axis,
    ).infinite() by {
        assert(coordinate(pairs(points)[i], axis) == points[2 * i + axis]);
    }
}

/// A rectangle of one point covers the cells of that point.
pub proof fn law_one_point_rectangle_is_the_point(points: Seq<Single>, cell_size: Single)
    requires
        points.len() == 2,
    ensures
        region_bounds(
            RegionView { points, hint: DomainRegion::HINT_AXIS_ALIGNED_RECTANGLE },
            cell_size,
        ) == region_bounds(RegionView { points, hint: DomainRegion::HINT_POINT }, cell_size),
{
}

/// Nothing at or below zero reaches beyond the first cell.
proof fn lemma_index_below_zero(a: Single, d: Single)
    requires
        !a.nan() && !a.infinite(),
        a.units() <= 0,
        !d.nan() && !d.infinite(),
        d.units() > 0,
    ensures
        a.quotient(d).floor_index() == 0,
        a.quotient(d).ceil_index(usize::MAX as int) == 0,
{
    lemma_magnitude_parts(0, 0);
    lemma_magnitude_increases(0, a.pattern());
    lemma_magnitude_increases(0, d.pattern());
    if a.pattern() == 0 {
        lemma_zero_index(a, d);
    } else {
        let u: int = pow2(149) as int;
        let num: int = magnitude(a.pattern()) * u;
        lemma_pow2_pos(149);
        assert(num >= 0) by (nonlinear_arith)
            requires
                num == magnitude(a.pattern()) * u,
                magnitude(a.pattern()) >= 0,
                u > 0,
        ;
        law_rounding_keeps_order(num, magnitude(d.pattern()), num, magnitude(d.pattern()));
        let k: int = nearest(num, magnitude(d.pattern()));
        lemma_signed(true, k);
        lemma_magnitude_increases(0, k);
        let v: int = magnitude(k);
        assert((-v) / u <= 0) by (nonlinear_arith)
            requires
                v >= 0,
                u > 0,
        ;
        assert(v / u >= 0) by (nonlinear_arith)
            requires
                v >= 0,
                u > 0,
        ;
        assert(-(-v) == v);
        assert(a.quotient(d).units() == -v);
    }
}

/// The least and the greatest coordinate are those of points, where there is a finite one.
proof fn lemma_extremes_occur(points: Seq<Single>, axis: int, w: int)
    requires
        axis == 0 || axis == 1,
        0 <= w < points.len() / 2,
        !points[2 * w + axis].nan(),
        forall|i: int| 0 <= i < points.len() ==> !(#[trigger] points[i]).infinite(),
    ensures
        ({
            let n: nat = (points.len() / 2) as nat;
            let low: Single = least(points, axis, n);
            let high: Single = greatest(points, axis, n);
            &&& !low.nan() && !low.infinite() && !high.nan() && !high.infinite()
            &&& low.units() <= high.units()
            &&& exists|i: int|
                0 <= i < n && !(#[trigger] points[2 * i + axis]).nan() && points[2 * i
                    + axis].units() == low.units()
            &&& exists|i: int|
                0 <= i < n && !(#[trigger] points[2 * i + axis]).nan() && points[2 * i
                    + axis].units() == high.units()
        }),
{
    let n: nat = (points.len() / 2) as nat;
    let low: Single = least(points, axis, n);
    let high: Single = greatest(points, axis, n);
    let p: Single = points[2 * w + axis];
    lemma_least(points, axis, n);
    lemma_greatest(points, axis, n);
    lemma_least_occurs(points, axis, n);
    lemma_greatest_occurs(points, axis, n);
    lemma_magnitude_parts(0, 0);
    lemma_magnitude_increases(0, p.pattern());
    lemma_magnitude_increases(p.pattern(), LARGEST as int);
    assert(!p.infinite());
    if low == (Single { bits: LARGEST }) {
        assert(p.units() == low.units());
    } else {
        let i: int = choose|i: int|
            0 <= i < n && low == coordinate(#[trigger] pairs(points)[i], axis);
        assert(low == points[2 * i + axis]);
    }
    if high == (Single { bits: SMALLEST }) {
        assert(p.units() == high.units());
    } else {
        let i: int = choose|i: int|
            0 <= i < n && high == coordinate(#[trigger] pairs(points)[i], axis);
        assert(high == points[2 * i + axis]);
    }
}

/// Along one axis, the first and the last cell of a region are those of its points, rounded down
/// and up.
#[verifier::rlimit(50)]
proof fn lemma_axis_cells(points: Seq<Single>, axis: int, w: int, d: Single)
    requires
        axis == 0 || axis == 1,
        0 <= w < points.len() / 2,
        !points[2 * w + axis].nan(),
        forall|i: int| 0 <= i < points.len() ==> !(#[trigger] points[i]).infinite(),
        !d.nan() && !d.infinite(),
        d.units() > 0,
        greatest(points, axis, (points.len() / 2) as nat).units() >= 0,
    ensures
        ({
            let n: nat = (points.len() / 2) as nat;
            let min: Single = least(points, axis, n);
            let low: Single = if min.units() < 0 {
                Single { bits: 0 }
            } else {
                min
            };
            let start: int = low.quotient(d).floor_index();
            let end: int = greatest(points, axis, n).quotient(d).ceil_index(usize::MAX as int);
            &&& forall|i: int|
                0 <= i < n && !(#[trigger] points[2 * i + axis]).nan() ==> start <= points[2 * i
                    + axis].quotient(d).floor_index() && points[2 * i + axis].quotient(
                    d,
                ).ceil_index(usize::MAX as int) <= end
            &&& exists|i: int|
                0 <= i < n && !(#[trigger] points[2 * i + axis]).nan() && start == points[2 * i
                    + axis].quotient(d).floor_index()
            &&& exists|i: int|
                0 <= i < n && !(#[trigger] points[2 * i + axis]).nan() && end == points[2 * i
                    + axis].quotient(d).ceil_index(usize::MAX as int)
        }),
{
    let n: nat = (points.len() / 2) as nat;
    let zero: Single = Single { bits: 0 };
    let min: Single = least(points, axis, n);
    let max: Single = greatest(points, axis, n);
    let low: Single = if min.units() < 0 {
        zero
    } else {
        min
    };
    lemma_magnitude_parts(0, 0);
    lemma_extremes_occur(points, axis, w);
    lemma_least(points, axis, n);
    lemma_greatest(points, axis, n);
    lemma_index_below_zero(zero, d);
    let start: int = low.quotient(d).floor_index();
    let end: int = max.quotient(d).ceil_index(usize::MAX as int);
    assert forall|i: int| 0 <= i < n && !(#[trigger] points[2 * i + axis]).nan() implies start
        <= points[2 * i + axis].quotient(d).floor_index() && points[2 * i + axis].quotient(
        d,
    ).ceil_index(usize::MAX as int) <= end by {
        let p: Single = points[2 * i + axis];
        assert(!p.infinite());
        if p.units() <= 0 {
            lemma_index_below_zero(p, d);
            law_division_keeps_order(max, max, d);
            lemma_index_order(max.quotient(d), max.quotient(d));
            if low.units() > 0 {
                assert(min.units() <= p.units());
            }
            assert(low.units() <= 0);
            lemma_index_below_zero(low, d);
        } else {
            law_division_keeps_order(low, p, d);
            law_division_keeps_order(p, max, d);
            lemma_index_order(low.quotient(d), p.quotient(d));
            lemma_index_order(p.quotient(d), max.quotient(d));
        }
    }
    let a: int = choose|i: int|
        0 <= i < n && !(#[trigger] points[2 * i + axis]).nan() && points[2 * i + axis].units()
            == min.units();
    let pa: Single = points[2 * a + axis];
    assert(!pa.infinite());
    if min.units() < 0 {
        lemma_index_below_zero(pa, d);
    } else {
        lemma_same_index(pa, min, d);
    }
    assert(start == pa.quotient(d).floor_index());
    let b: int = choose|i: int|
        0 <= i < n && !(#[trigger] points[2 * i + axis]).nan() && points[2 * i + axis].units()
            == max.units();
    lemma_same_index(points[2 * b + axis], max, d);
}

/// Which regions have no cells: those of an unknown kind, those with the wrong number of
/// coordinates for their kind, and those of which one coordinate is negative throughout.
/// Coordinates that are not numbers do not count.
#[verifier::rlimit(50)]
pub proof fn law_regions_without_cells(region: RegionView, cell_size: Single, v: int, w: int)
    requires
        forall|i: int|
            0 <= i < region.points.len() ==> !(#[trigger] region.points[i]).infinite(),
        0 <= v < region.points.len() / 2 && !region.points[2 * v].nan(),
        0 <= w < region.points.len() / 2 && !region.points[2 * w + 1].nan(),
    ensures
        ({
            let points: Seq<Single> = region.points;
            let n: int = points.len() as int / 2;
            let fitting: bool = (region.hint == 2 && points.len() % 2 == 0) || (region.hint == 1
                && points.len() == 2);
            let left: bool = forall|i: int|
                0 <= i < n && !(#[trigger] points[2 * i + 0]).nan() ==> points[2 * i + 0].units()
                    < 0;
            let below: bool = forall|i: int|
                0 <= i < n && !(#[trigger] points[2 * i + 1]).nan() ==> points[2 * i + 1].units()
                    < 0;
            region_bounds(region, cell_size) is None <==> !fitting || left || below
        }),
{
    let points: Seq<Single> = region.points;
    let n: nat = (points.len() / 2) as nat;
    assert(points[2 * v + 0] == points[2 * v]);
    lemma_negative_throughout(points, 0, v);
    lemma_negative_throughout(points, 1, w);
    if (region.hint == 2 && points.len() % 2 == 0) || (region.hint == 1 && points.len() == 2) {
        lemma_extremes_occur(points, 0, v);
        lemma_extremes_occur(points, 1, w);
        law_bounds_from_extremes(region, cell_size);
    } else {
        law_malformed_region_has_no_cells(region, cell_size);
    }
}

/// A coordinate is negative throughout exactly if the greatest one is.
proof fn lemma_negative_throughout(points: Seq<Single>, axis: int, w: int)
    requires
        axis == 0 || axis == 1,
        0 <= w < points.len() / 2,
        !points[2 * w + axis].nan(),
        forall|i: int| 0 <= i < points.len() ==> !(#[trigger] points[i]).infinite(),
    ensures
        greatest(points, axis, (points.len() / 2) as nat).units() < 0 <==> forall|i: int|
            0 <= i < points.len() / 2 && !(#[trigger] points[2 * i + axis]).nan() ==> points[2 * i
                + axis].units() < 0,
{
    let n: nat = (points.len() / 2) as nat;
    let high: Single = greatest(points, axis, n);
    lemma_extremes_occur(points, axis, w);
    lemma_greatest(points, axis, n);
    let b: int = choose|i: int|
        0 <= i < n && !(#[trigger] points[2 * i + axis]).nan() && points[2 * i + axis].units()
            == high.units();
    assert(!points[2 * b + axis].nan());
}

/// Which cells a region has: along both axes, from the lowest cell that one of its points lies in
/// to the highest that one of them reaches up to. Coordinates that are not numbers do not count.
#[verifier::rlimit(50)]
pub proof fn law_bounds_in_detail(region: RegionView, cell_size: Single, v: int, w: int)
    requires
        !cell_size.nan() && !cell_size.infinite(),
        cell_size.units() > 0,
        forall|i: int|
            0 <= i < region.points.len() ==> !(#[trigger] region.points[i]).infinite(),
        0 <= v < region.points.len() / 2 && !region.points[2 * v].nan(),
        0 <= w < region.points.len() / 2 && !region.points[2 * w + 1].nan(),
    ensures
        region_bounds(region, cell_size) matches Some(range) ==> ({
            let points: Seq<Single> = region.points;
            let n: int = points.len() as int / 2;
            &&& forall|i: int|
                0 <= i < n && !(#[trigger] points[2 * i + 0]).nan() ==> range.start_x <= points[2
                    * i + 0].quotient(cell_size).floor_index() && points[2 * i + 0].quotient(
                    cell_size,
                ).ceil_index(usize::MAX as int) <= range.end_x
            &&& exists|i: int|
                0 <= i < n && !(#[trigger] points[2 * i + 0]).nan() && range.start_x == points[2
                    * i + 0].quotient(cell_size).floor_index()
            &&& exists|i: int|
                0 <= i < n && !(#[trigger] points[2 * i + 0]).nan() && range.end_x == points[2 * i
                    + 0].quotient(cell_size).ceil_index(usize::MAX as int)
            &&& forall|i: int|
                0 <= i < n && !(#[trigger] points[2 * i + 1]).nan() ==> range.start_y <= points[2
                    * i + 1].quotient(cell_size).floor_index() && points[2 * i + 1].quotient(
                    cell_size,
                ).ceil_index(usize::MAX as int) <= range.end_y
            &&& exists|i: int|
                0 <= i < n && !(#[trigger] points[2 * i + 1]).nan() && range.start_y == points[2
                    * i + 1].quotient(cell_size).floor_index()
            &&& exists|i: int|
                0 <= i < n && !(#[trigger] points[2 * i + 1]).nan() && range.end_y == points[2 * i
                    + 1].quotient(cell_size).ceil_index(usize::MAX as int)
        }),
{
    let points: Seq<Single> = region.points;
    assert(points[2 * v + 0] == points[2 * v]);
    if region_bounds(region, cell_size) is Some {
        lemma_extremes_occur(points, 0, v);
        lemma_extremes_occur(points, 1, w);
        law_bounds_from_extremes(region, cell_size);
        lemma_axis_cells(points, 0, v, cell_size);
        lemma_axis_cells(points, 1, w, cell_size);
    }
}

/// A region of an unknown kind, or with the wrong number of coordinates for its kind, has no
/// cells, whatever the coordinates.
pub proof fn law_malformed_region_has_no_cells(region: RegionView, cell_size: Single)
    requires
        region.hint != 1 && region.hint != 2 || region.hint == 1 && region.points.len() != 2
            || region.hint == 2 && (region.points.len() < 2 || region.points.len() % 2 != 0),
    ensures
        region_bounds(region, cell_size) is None,
{
}

/// One point more, be it finite or not: the least coordinate gives way to a lesser one, the
/// greatest to a greater one, and neither to what is not a number. Without points the least is the
/// largest finite number and the greatest the smallest.
pub proof fn law_extremes_with_one_more(points: Seq<Single>, axis: int, n: nat)
    ensures
        ({
            let p: Single = points[2 * n + axis];
            let low: Single = least(points, axis, n);
            let high: Single = greatest(points, axis, n);
            &&& least(points, axis, n + 1) == if p.below(low) {
                p
            } else {
                low
            }
            &&& greatest(points, axis, n + 1) == if high.below(p) {
                p
            } else {
                high
            }
        }),
        least(points, axis, 0).bits == 0x7f7f_ffff,
        greatest(points, axis, 0).bits == 0xff7f_ffff,
{
    lemma_least(points, axis, n);
    lemma_greatest(points, axis, n);
}

/// The cells of a well-formed region from its extremes, whatever they are and whatever the size of
/// a cell: with a negative least coordinate along either axis, the region has no cells if a
/// greatest coordinate is negative too, and counts from zero otherwise; the first cell is the
/// rounded-down and the last the rounded-up quotient of the extremes by the size.
#[verifier::rlimit(50)]
pub proof fn law_bounds_from_extremes(region: RegionView, cell_size: Single)
    requires
        region.hint == 1 && region.points.len() == 2 || region.hint == 2 && region.points.len() >= 2
            && region.points.len() % 2 == 0,
    ensures
        ({
            let n: nat = (region.points.len() / 2) as nat;
            let min_x: Single = least(region.points, 0, n);
            let max_x: Single = greatest(region.points, 0, n);
            let min_y: Single = least(region.points, 1, n);
            let max_y: Single = greatest(region.points, 1, n);
            let zero: Single = Single { bits: 0 };
            let first_x: Single = if min_x.units() < 0 {
                zero
            } else {
                min_x
            };
            let first_y: Single = if min_y.units() < 0 {
                zero
            } else {
                min_y
            };
            let dropped: bool = (min_x.units() < 0 || min_y.units() < 0) && (max_x.units() < 0
                || max_y.units() < 0);
            &&& dropped ==> region_bounds(region, cell_size) is None
            &&& !dropped ==> (region_bounds(region, cell_size) matches Some(range)
                && range.start_x == first_x.quotient(cell_size).floor_index() && range.end_x
                == max_x.quotient(cell_size).ceil_index(usize::MAX as int) && range.start_y
                == first_y.quotient(cell_size).floor_index() && range.end_y == max_y.quotient(
                cell_size,
            ).ceil_index(usize::MAX as int))
        }),
{
    let n: nat = (region.points.len() / 2) as nat;
    lemma_magnitude_parts(0, 0);
    lemma_least(region.points, 0, n);
    lemma_least(region.points, 1, n);
    lemma_greatest(region.points, 0, n);
    lemma_greatest(region.points, 1, n);
}

} // verus!
