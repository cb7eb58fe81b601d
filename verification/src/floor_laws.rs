//! The floor grid, robot by robot and waypoint by waypoint.

use crate::double::Double;
use crate::execution::fitted;
use crate::executor::{all_ready, Entry, ExecutorView};
use crate::fitting::{
    cells_fit, fairly_moderate, law_fitted_grid_holds_everything,
    law_fitted_grid_of_any_resolution, near,
};
use crate::floor::{extent_of, footprint_of, occupied_positions, AgentFootprint, Extent};
use crate::grid::{LARGEST, SMALLEST};
use crate::messages::Position;
use crate::rounding::{lemma_magnitude_increases, lemma_magnitude_parts};
use crate::single::Single;
use vstd::prelude::*;

verus! {

/// What the grid has to hold: where each robot is, and every waypoint of each plan, and nothing
/// else.
#[verifier::rlimit(50)]
pub proof fn law_everything_is_looked_at(fleet: Seq<Entry>, n: nat, i: int, j: int, k: int)
    requires
        n <= fleet.len(),
        all_ready(fleet),
    ensures
        ({
            let positions: Seq<Position> = occupied_positions(fleet, n);
            &&& 0 <= i < n ==> positions.contains(
                Position {
                    x: fleet[i].state.latest_odom->0.x.narrowed(),
                    y: fleet[i].state.latest_odom->0.y.narrowed(),
                },
            )
            &&& 0 <= i < n && 0 <= j < fleet[i].state.plan->0.waypoints.len()
                ==> positions.contains(fleet[i].state.plan->0.waypoints[j].position)
            &&& 0 <= k < positions.len() ==> exists|r: int|
                #![trigger fleet[r]]
                0 <= r < n && (positions[k] == Position {
                    x: fleet[r].state.latest_odom->0.x.narrowed(),
                    y: fleet[r].state.latest_odom->0.y.narrowed(),
                } || exists|w: int|
                    0 <= w < fleet[r].state.plan->0.waypoints.len() && positions[k] == (
                    #[trigger] fleet[r].state.plan->0.waypoints[w]).position)
        }),
    decreases n,
{
    if n > 0 {
        let m: nat = (n - 1) as nat;
        let last: Entry = fleet[n - 1];
        let rest: Seq<Position> = occupied_positions(fleet, m);
        let positions: Seq<Position> = occupied_positions(fleet, n);
        assert(fleet[n - 1].state.ready());
        law_everything_is_looked_at(fleet, m, i, j, k);
        let place: Position = last.state.place()->0;
        let start: Seq<Position> = rest.push(place);
        assert(positions == start + last.state.plan->0.route());
        if 0 <= i < m {
            let place_i: Position = Position {
                x: fleet[i].state.latest_odom->0.x.narrowed(),
                y: fleet[i].state.latest_odom->0.y.narrowed(),
            };
            let a: int = choose|a: int| 0 <= a < rest.len() && rest[a] == place_i;
            assert(positions[a] == place_i);
            if 0 <= j < fleet[i].state.plan->0.waypoints.len() {
                let w: Position = fleet[i].state.plan->0.waypoints[j].position;
                let b: int = choose|b: int| 0 <= b < rest.len() && rest[b] == w;
                assert(positions[b] == w);
            }
        } else if i == m {
            assert(positions[rest.len() as int] == place);
            if 0 <= j < last.state.plan->0.waypoints.len() {
                assert(positions[start.len() + j] == last.state.plan->0.waypoints[j].position);
            }
        }
        if 0 <= k < positions.len() {
            if k < rest.len() {
                assert(positions[k] == rest[k]);
                let r: int = choose|r: int|
                    #![trigger fleet[r]]
                    0 <= r < m && (rest[k] == Position {
                        x: fleet[r].state.latest_odom->0.x.narrowed(),
                        y: fleet[r].state.latest_odom->0.y.narrowed(),
                    } || exists|w: int|
                        0 <= w < fleet[r].state.plan->0.waypoints.len() && rest[k] == (
                        #[trigger] fleet[r].state.plan->0.waypoints[w]).position);
                assert(0 <= r < n);
            } else if k == rest.len() {
                assert(positions[k] == place);
                assert(fleet[n - 1] == last);
            } else {
                let w: int = k - start.len();
                assert(positions[k] == last.state.plan->0.route()[w]);
                assert(positions[k] == fleet[n - 1].state.plan->0.waypoints[w].position);
            }
        }
    }
}

/// The number is finite.
spec fn finite(s: Single) -> bool {
    !s.nan() && !s.infinite()
}

/// The rectangle around some finite positions: no position lies outside, and each side goes through
/// one of them.
#[verifier::rlimit(50)]
pub proof fn law_extent_in_detail(positions: Seq<Position>, i: int)
    requires
        positions.len() > 0,
        forall|k: int|
            0 <= k < positions.len() ==> {
                let p: Position = #[trigger] positions[k];
                !p.x.nan() && !p.x.infinite() && !p.y.nan() && !p.y.infinite()
            },
    ensures
        ({
            let e: Extent = extent_of(positions);
            &&& 0 <= i < positions.len() ==> {
                &&& e.min_x.units() <= positions[i].x.units() <= e.max_x.units()
                &&& e.min_y.units() <= positions[i].y.units() <= e.max_y.units()
            }
            &&& !e.min_x.nan() && !e.max_x.nan() && !e.min_y.nan() && !e.max_y.nan()
            &&& exists|k: int|
                0 <= k < positions.len() && (#[trigger] positions[k]).x.units() == e.min_x.units()
            &&& exists|k: int|
                0 <= k < positions.len() && (#[trigger] positions[k]).x.units() == e.max_x.units()
            &&& exists|k: int|
                0 <= k < positions.len() && (#[trigger] positions[k]).y.units() == e.min_y.units()
            &&& exists|k: int|
                0 <= k < positions.len() && (#[trigger] positions[k]).y.units() == e.max_y.units()
        }),
    decreases positions.len(),
{
    let rest: Seq<Position> = positions.drop_last();
    let n: int = positions.len() as int;
    let e: Extent = extent_of(positions);
    let before: Extent = extent_of(rest);
    let last: Position = positions[n - 1];
    assert(finite(last.x) && finite(last.y));
    lemma_within_range(last.x);
    lemma_within_range(last.y);
    if rest.len() == 0 {
        assert(before == Extent::nothing());
        assert(e.min_x.units() == last.x.units());
        assert(e.max_x.units() == last.x.units());
        assert(e.min_y.units() == last.y.units());
        assert(e.max_y.units() == last.y.units());
    } else {
        assert forall|k: int| 0 <= k < rest.len() implies {
            let p: Position = #[trigger] rest[k];
            !p.x.nan() && !p.x.infinite() && !p.y.nan() && !p.y.infinite()
        } by {
            assert(rest[k] == positions[k]);
        }
        law_extent_in_detail(rest, i);
        let a: int = choose|k: int|
            0 <= k < rest.len() && (#[trigger] rest[k]).x.units() == before.min_x.units();
        let b: int = choose|k: int|
            0 <= k < rest.len() && (#[trigger] rest[k]).x.units() == before.max_x.units();
        let c: int = choose|k: int|
            0 <= k < rest.len() && (#[trigger] rest[k]).y.units() == before.min_y.units();
        let d: int = choose|k: int|
            0 <= k < rest.len() && (#[trigger] rest[k]).y.units() == before.max_y.units();
        assert(positions[a] == rest[a] && positions[b] == rest[b] && positions[c] == rest[c]
            && positions[d] == rest[d]);
        if 0 <= i < rest.len() {
            assert(positions[i] == rest[i]);
        }
    }
}

/// Every finite number lies between the two ends of the range.
proof fn lemma_within_range(s: Single)
    requires
        finite(s),
    ensures
        (Single { bits: SMALLEST }).units() <= s.units() <= (Single { bits: LARGEST }).units(),
        !(Single { bits: SMALLEST }).nan() && !(Single { bits: LARGEST }).nan(),
{
    lemma_magnitude_parts(0, 0);
    lemma_magnitude_increases(0, s.pattern());
    lemma_magnitude_increases(s.pattern(), LARGEST as int);
}

/// One position more, be it finite or not: each side moves out to it where it lies beyond, and stays
/// where it does not or where it is not a number. The rectangle around nothing is inside out.
pub proof fn law_extent_with_one_more(positions: Seq<Position>, p: Position)
    ensures
        ({
            let e: Extent = extent_of(positions);
            let wider: Extent = extent_of(positions.push(p));
            &&& wider.min_x == if p.x.below(e.min_x) || e.min_x.nan() {
                p.x
            } else {
                e.min_x
            }
            &&& wider.max_x == if e.max_x.below(p.x) || e.max_x.nan() {
                p.x
            } else {
                e.max_x
            }
            &&& wider.min_y == if p.y.below(e.min_y) || e.min_y.nan() {
                p.y
            } else {
                e.min_y
            }
            &&& wider.max_y == if e.max_y.below(p.y) || e.max_y.nan() {
                p.y
            } else {
                e.max_y
            }
        }),
        extent_of(Seq::empty()).min_x.bits == 0x7f7f_ffff,
        extent_of(Seq::empty()).min_y.bits == 0x7f7f_ffff,
        extent_of(Seq::empty()).max_x.bits == 0xff7f_ffff,
        extent_of(Seq::empty()).max_y.bits == 0xff7f_ffff,
{
    assert(positions.push(p).drop_last() =~= positions);
}

/// The borders of the grid: it starts at its origin, and reaches as far as its cells do.
pub proof fn law_borders_of_the_grid(state: ExecutorView)
    ensures
        state.low_x() == state.grid_origin.position.x.narrowed(),
        state.low_y() == state.grid_origin.position.y.narrowed(),
        state.high_x() == state.grid_origin.position.x.narrowed().sum(
            Single::of_integer(state.grid_width as int).product(state.grid_resolution),
        ),
        state.high_y() == state.grid_origin.position.y.narrowed().sum(
            Single::of_integer(state.grid_height as int).product(state.grid_resolution),
        ),
{
}

/// The grid is laid anew exactly if a robot or a waypoint, all of them with finite coordinates,
/// lies beyond one of its borders.
#[verifier::rlimit(50)]
pub proof fn law_laid_anew_iff_something_is_off(state: ExecutorView)
    requires
        all_ready(state.fleet),
        forall|k: int|
            0 <= k < occupied_positions(state.fleet, state.fleet.len()).len() ==> {
                let p: Position = #[trigger] occupied_positions(state.fleet, state.fleet.len())[k];
                !p.x.nan() && !p.x.infinite() && !p.y.nan() && !p.y.infinite()
            },
    ensures
        state.outgrown_by(extent_of(occupied_positions(state.fleet, state.fleet.len())))
            <==> exists|k: int|
            0 <= k < occupied_positions(state.fleet, state.fleet.len()).len() && {
                let p: Position = #[trigger] occupied_positions(state.fleet, state.fleet.len())[k];
                p.x.below(state.low_x()) || p.y.below(state.low_y()) || state.high_x().below(p.x)
                    || state.high_y().below(p.y)
            },
{
    let positions: Seq<Position> = occupied_positions(state.fleet, state.fleet.len());
    let e: Extent = extent_of(positions);
    law_everything_is_looked_at(state.fleet, state.fleet.len(), 0, 0, 0);
    assert(positions.len() > 0);
    law_extent_in_detail(positions, 0);
    assert forall|k: int| 0 <= k < positions.len() implies {
        let p: Position = #[trigger] positions[k];
        &&& e.min_x.units() <= p.x.units() <= e.max_x.units()
        &&& e.min_y.units() <= p.y.units() <= e.max_y.units()
        &&& finite(p.x) && finite(p.y)
    } by {
        law_extent_in_detail(positions, k);
    }
    let a: int = choose|k: int|
        0 <= k < positions.len() && (#[trigger] positions[k]).x.units() == e.min_x.units();
    let b: int = choose|k: int|
        0 <= k < positions.len() && (#[trigger] positions[k]).x.units() == e.max_x.units();
    let c: int = choose|k: int|
        0 <= k < positions.len() && (#[trigger] positions[k]).y.units() == e.min_y.units();
    let d: int = choose|k: int|
        0 <= k < positions.len() && (#[trigger] positions[k]).y.units() == e.max_y.units();
    assert(finite(positions[a].x) && finite(positions[b].x) && finite(positions[c].y) && finite(
        positions[d].y,
    ));
}

/// How the grid is laid anew: 20 beyond what it has to hold on every side, with as many cells as
/// it takes, and upright. Nothing else changes.
pub proof fn law_laying_in_detail(state: ExecutorView, e: Extent)
    ensures
        ({
            let after: ExecutorView = state.laid_around(e);
            let twenty: Single = Single { bits: 0x41a0_0000 };
            &&& after.grid_origin.position.x == Double::widened(e.min_x.difference(twenty))
            &&& after.grid_origin.position.y == Double::widened(e.min_y.difference(twenty))
            &&& after.grid_origin.position.z == state.grid_origin.position.z
            &&& after.grid_origin.orientation.x == state.grid_origin.orientation.x
            &&& after.grid_origin.orientation.y == state.grid_origin.orientation.y
            &&& after.grid_origin.orientation.z == state.grid_origin.orientation.z
            &&& after.grid_origin.orientation.w == (Double { bits: 0x3ff0_0000_0000_0000 })
            &&& after.grid_width == e.max_x.sum(twenty).difference(
                e.min_x.difference(twenty),
            ).quotient(state.grid_resolution).ceil_index(0xffff_ffff)
            &&& after.grid_height == e.max_y.sum(twenty).difference(
                e.min_y.difference(twenty),
            ).quotient(state.grid_resolution).ceil_index(0xffff_ffff)
            &&& after.grid_resolution == state.grid_resolution
            &&& after.fleet == state.fleet
            &&& after.release_publishers == state.release_publishers
            &&& after.zone_publishers == state.zone_publishers
        }),
{
}

/// Fitting the grid: as it was where it is not outgrown, and otherwise laid around everything.
pub proof fn law_fitting_in_detail(state: ExecutorView, e: Extent)
    requires
        e == extent_of(occupied_positions(state.fleet, state.fleet.len())),
    ensures
        state.outgrown_by(e) ==> fitted(state) == state.laid_around(e),
        !state.outgrown_by(e) ==> fitted(state) == state,
        state.outgrown_by(e) <==> e.min_x.below(state.low_x()) || e.min_y.below(state.low_y())
            || state.high_x().below(e.max_x) || state.high_y().below(e.max_y),
{
}

/// After the grid has been fitted, each robot and each waypoint of each plan lies within its
/// borders: with cells of size 1, and as long as all coordinates are finite and of an amount of at
/// most 2^26.
#[verifier::rlimit(50)]
pub proof fn law_every_robot_and_waypoint_is_on_the_floor(state: ExecutorView, i: int, j: int)
    requires
        all_ready(state.fleet),
        state.grid_resolution == (Single { bits: 0x3f80_0000 }),
        forall|k: int|
            0 <= k < occupied_positions(state.fleet, state.fleet.len()).len() ==> near(
                #[trigger] occupied_positions(state.fleet, state.fleet.len())[k],
            ),
        0 <= i < state.fleet.len(),
    ensures
        ({
            let after: ExecutorView = fitted(state);
            let x: Single = state.fleet[i].state.latest_odom->0.x.narrowed();
            let y: Single = state.fleet[i].state.latest_odom->0.y.narrowed();
            &&& !x.below(after.low_x()) && !after.high_x().below(x)
            &&& !y.below(after.low_y()) && !after.high_y().below(y)
            &&& 0 <= j < state.fleet[i].state.plan->0.waypoints.len() ==> {
                let p: Position = state.fleet[i].state.plan->0.waypoints[j].position;
                &&& !p.x.below(after.low_x()) && !after.high_x().below(p.x)
                &&& !p.y.below(after.low_y()) && !after.high_y().below(p.y)
            }
        }),
{
    let positions: Seq<Position> = occupied_positions(state.fleet, state.fleet.len());
    law_everything_is_looked_at(state.fleet, state.fleet.len(), i, j, 0);
    let place: Position = Position {
        x: state.fleet[i].state.latest_odom->0.x.narrowed(),
        y: state.fleet[i].state.latest_odom->0.y.narrowed(),
    };
    let a: int = choose|a: int| 0 <= a < positions.len() && positions[a] == place;
    law_fitted_grid_holds_everything(state, a);
    if 0 <= j < state.fleet[i].state.plan->0.waypoints.len() {
        let p: Position = state.fleet[i].state.plan->0.waypoints[j].position;
        let b: int = choose|b: int| 0 <= b < positions.len() && positions[b] == p;
        law_fitted_grid_holds_everything(state, b);
    }
}

/// The same with cells of any positive size, for amounts of at most 2^25, as long as the numbers of
/// cells are 32-bit integers.
#[verifier::rlimit(50)]
pub proof fn law_every_robot_and_waypoint_is_on_a_floor_of_any_resolution(
    state: ExecutorView,
    i: int,
    j: int,
)
    requires
        all_ready(state.fleet),
        !state.grid_resolution.nan() && !state.grid_resolution.infinite(),
        state.grid_resolution.units() > 0,
        forall|k: int|
            0 <= k < occupied_positions(state.fleet, state.fleet.len()).len() ==> {
                let p: Position = #[trigger] occupied_positions(state.fleet, state.fleet.len())[k];
                fairly_moderate(p.x) && fairly_moderate(p.y)
            },
        cells_fit(
            extent_of(occupied_positions(state.fleet, state.fleet.len())),
            state.grid_resolution,
        ),
        0 <= i < state.fleet.len(),
    ensures
        ({
            let after: ExecutorView = fitted(state);
            let x: Single = state.fleet[i].state.latest_odom->0.x.narrowed();
            let y: Single = state.fleet[i].state.latest_odom->0.y.narrowed();
            &&& !x.below(after.low_x()) && !after.high_x().below(x)
            &&& !y.below(after.low_y()) && !after.high_y().below(y)
            &&& 0 <= j < state.fleet[i].state.plan->0.waypoints.len() ==> {
                let p: Position = state.fleet[i].state.plan->0.waypoints[j].position;
                &&& !p.x.below(after.low_x()) && !after.high_x().below(p.x)
                &&& !p.y.below(after.low_y()) && !after.high_y().below(p.y)
            }
        }),
{
    let positions: Seq<Position> = occupied_positions(state.fleet, state.fleet.len());
    law_everything_is_looked_at(state.fleet, state.fleet.len(), i, j, 0);
    let place: Position = Position {
        x: state.fleet[i].state.latest_odom->0.x.narrowed(),
        y: state.fleet[i].state.latest_odom->0.y.narrowed(),
    };
    let a: int = choose|a: int| 0 <= a < positions.len() && positions[a] == place;
    law_fitted_grid_of_any_resolution(state, a);
    if 0 <= j < state.fleet[i].state.plan->0.waypoints.len() {
        let p: Position = state.fleet[i].state.plan->0.waypoints[j].position;
        let b: int = choose|b: int| 0 <= b < positions.len() && positions[b] == p;
        law_fitted_grid_of_any_resolution(state, b);
    }
}

/// What the allocation is told of a robot: the whole of its way and its place, measured from the
/// origin of the grid, and its radius.
pub proof fn law_footprint_in_detail(
    state: ExecutorView,
    footprint: AgentFootprint,
    entry: Entry,
    j: int,
)
    requires
        footprint_of(state, footprint, entry),
        entry.state.latest_odom is Some,
    ensures
        ({
            let left: Single = state.grid_origin.position.x.narrowed();
            let bottom: Single = state.grid_origin.position.y.narrowed();
            let waypoints = entry.state.plan->0.waypoints;
            &&& footprint.trajectory@.len() == waypoints.len()
            &&& 0 <= j < waypoints.len() ==> footprint.trajectory@[j].x
                == waypoints[j].position.x.difference(left) && footprint.trajectory@[j].y
                == waypoints[j].position.y.difference(bottom)
            &&& footprint.radius == entry.state.radius
            &&& footprint.real_position.x
                == entry.state.latest_odom->0.x.narrowed().difference(left)
            &&& footprint.real_position.y
                == entry.state.latest_odom->0.y.narrowed().difference(bottom)
        }),
{
}

} // verus!
