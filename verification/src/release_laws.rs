//! How far a robot may go, robot by robot and blocker by blocker.

use crate::executor::{
    count_before, lemma_place_is_count, ordered, stands_at, takes_part, Entry,
};
use crate::messages::{BlockerView, Position, WaypointView};
use crate::release::{
    clears, frontier, law_frontier_is_first_blocked, offsets, passable, settled,
};
use crate::rounding::magnitude;
use crate::single::Single;
use vstd::prelude::*;

verus! {

/// Whether a robot of the fleet bears the name, and has come as far as is required.
proof fn lemma_clears(fleet: Seq<Entry>, progress: Seq<usize>, blocker: BlockerView)
    requires
        ordered(fleet),
        progress.len() == fleet.len(),
    ensures
        clears(fleet, progress, blocker) <==> exists|i: int|
            0 <= i < fleet.len() && (#[trigger] fleet[i]).name == blocker.name && progress[i]
                >= blocker.required_progress.round_index(),
{
    let name: Seq<char> = blocker.name;
    assert forall|i: int| 0 <= i < fleet.len() && (#[trigger] fleet[i]).name == name implies count_before(
        fleet,
        name,
    ) == i && takes_part(fleet, name) by {
        assert(stands_at(fleet, name, i));
        lemma_place_is_count(fleet, name, i);
    }
    if takes_part(fleet, name) {
        let i: int = choose|i: int| stands_at(fleet, name, i);
        assert(fleet[i].name == name);
    }
}

/// A waypoint may be left behind if each of its blockers is one of the robots and has come as far
/// as the rounded progress that is required of it.
pub proof fn law_passable_if_all_blockers_have_come(
    fleet: Seq<Entry>,
    progress: Seq<usize>,
    waypoint: WaypointView,
    robots: Seq<int>,
)
    requires
        ordered(fleet),
        progress.len() == fleet.len(),
        robots.len() == waypoint.departure_blockers.len(),
        forall|k: int|
            0 <= k < robots.len() ==> 0 <= #[trigger] robots[k] < fleet.len()
                && fleet[robots[k]].name == waypoint.departure_blockers[k].name
                && progress[robots[k]]
                >= waypoint.departure_blockers[k].required_progress.round_index(),
    ensures
        passable(fleet, progress, waypoint),
{
    assert forall|k: int| 0 <= k < waypoint.departure_blockers.len() implies #[trigger] clears(
        fleet,
        progress,
        waypoint.departure_blockers[k],
    ) by {
        let i: int = robots[k];
        assert(fleet[i].name == waypoint.departure_blockers[k].name);
        lemma_clears(fleet, progress, waypoint.departure_blockers[k]);
    }
}

/// A waypoint may be left behind only if each of its blockers, wherever it stands in the list, is
/// one of the robots and has come as far as the rounded progress that is required of it.
pub proof fn law_passable_only_if_all_blockers_have_come(
    fleet: Seq<Entry>,
    progress: Seq<usize>,
    waypoint: WaypointView,
    k: int,
)
    requires
        ordered(fleet),
        progress.len() == fleet.len(),
        passable(fleet, progress, waypoint),
        0 <= k < waypoint.departure_blockers.len(),
    ensures
        exists|i: int|
            0 <= i < fleet.len() && (#[trigger] fleet[i]).name
                == waypoint.departure_blockers[k].name && progress[i]
                >= waypoint.departure_blockers[k].required_progress.round_index(),
{
    assert(clears(fleet, progress, waypoint.departure_blockers[k]));
    lemma_clears(fleet, progress, waypoint.departure_blockers[k]);
}

/// A single blocker that has not come far enough is enough, wherever it stands in the list.
pub proof fn law_one_late_blocker_blocks(
    fleet: Seq<Entry>,
    progress: Seq<usize>,
    waypoint: WaypointView,
    k: int,
    i: int,
)
    requires
        ordered(fleet),
        progress.len() == fleet.len(),
        0 <= k < waypoint.departure_blockers.len(),
        0 <= i < fleet.len(),
        fleet[i].name == waypoint.departure_blockers[k].name,
        progress[i] < waypoint.departure_blockers[k].required_progress.round_index(),
    ensures
        !passable(fleet, progress, waypoint),
{
    let name: Seq<char> = fleet[i].name;
    assert(stands_at(fleet, name, i));
    lemma_place_is_count(fleet, name, i);
    assert(!clears(fleet, progress, waypoint.departure_blockers[k]));
}

/// How far a robot may go: past every waypoint from where it is that has no blocker, or only
/// blockers that have come far enough, and up to the first one with a blocker that has not, or
/// that is not there.
#[verifier::rlimit(50)]
pub proof fn law_frontier_in_detail(
    fleet: Seq<Entry>,
    progress: Seq<usize>,
    waypoints: Seq<WaypointView>,
    from: int,
    i: int,
    k: int,
)
    requires
        ordered(fleet),
        progress.len() == fleet.len(),
        0 <= from,
    ensures
        ({
            let f: int = frontier(fleet, progress, waypoints, from);
            &&& from >= waypoints.len() ==> f == from
            &&& from < waypoints.len() ==> from <= f <= waypoints.len()
            &&& from <= i < f && 0 <= k < waypoints[i].departure_blockers.len() ==> exists|r: int|
                0 <= r < fleet.len() && (#[trigger] fleet[r]).name
                    == waypoints[i].departure_blockers[k].name && progress[r]
                    >= waypoints[i].departure_blockers[k].required_progress.round_index()
            &&& f < waypoints.len() ==> exists|b: BlockerView| #[trigger]
                waypoints[f].departure_blockers.contains(b) && forall|r: int|
                    0 <= r < fleet.len() && (#[trigger] fleet[r]).name == b.name ==> progress[r]
                        < b.required_progress.round_index()
        }),
{
    let f: int = frontier(fleet, progress, waypoints, from);
    law_frontier_is_first_blocked(fleet, progress, waypoints, from);
    if from <= i < f && 0 <= k < waypoints[i].departure_blockers.len() {
        assert(passable(fleet, progress, waypoints[i]));
        law_passable_only_if_all_blockers_have_come(fleet, progress, waypoints[i], k);
    }
    if f < waypoints.len() {
        let blockers: Seq<BlockerView> = waypoints[f].departure_blockers;
        let j: int = choose|j: int|
            0 <= j < blockers.len() && !#[trigger] clears(fleet, progress, blockers[j]);
        let b: BlockerView = blockers[j];
        lemma_clears(fleet, progress, b);
        assert(blockers.contains(b));
    }
}

/// What is measured before a release: the way to a position from every other robot that has
/// reported one, and from no robot else. Where all have reported, they come in the order of the
/// robots.
#[verifier::rlimit(50)]
pub proof fn law_offsets_in_detail(
    fleet: Seq<Entry>,
    agent: int,
    target: Position,
    n: nat,
    i: int,
    k: int,
)
    requires
        n <= fleet.len(),
    ensures
        ({
            let ways: Seq<Position> = offsets(fleet, agent, target, n);
            &&& 0 <= i < n && i != agent ==> (fleet[i].state.latest_odom matches Some(odom)
                ==> exists|j: int|
                0 <= j < ways.len() && (#[trigger] ways[j]).x == target.x.difference(
                    odom.x.narrowed(),
                ) && ways[j].y == target.y.difference(odom.y.narrowed()))
            &&& 0 <= k < ways.len() ==> exists|j: int|
                0 <= j < n && j != agent && ((#[trigger] fleet[j]).state.latest_odom matches Some(
                    odom,
                ) && ways[k].x == target.x.difference(odom.x.narrowed()) && ways[k].y
                    == target.y.difference(odom.y.narrowed()))
            &&& (forall|j: int|
                0 <= j < n ==> (#[trigger] fleet[j]).state.latest_odom is Some) && 0 <= agent < n
                && 0 <= i < n && i != agent ==> {
                let j: int = if i < agent {
                    i
                } else {
                    i - 1
                };
                &&& ways.len() == n - 1
                &&& ways[j].x == target.x.difference(fleet[i].state.latest_odom->0.x.narrowed())
                &&& ways[j].y == target.y.difference(fleet[i].state.latest_odom->0.y.narrowed())
            }
        }),
    decreases n,
{
    if n > 0 {
        let last: int = n - 1;
        let m: nat = last as nat;
        let rest: Seq<Position> = offsets(fleet, agent, target, m);
        let ways: Seq<Position> = offsets(fleet, agent, target, n);
        law_offsets_in_detail(fleet, agent, target, m, i, k);
        lemma_offsets_len(fleet, agent, target, m);
        if i == last && i != agent && fleet[i].state.latest_odom is Some {
            assert(ways[rest.len() as int].x == target.x.difference(
                fleet[i].state.latest_odom->0.x.narrowed(),
            ));
        }
        if 0 <= i < m && i != agent && fleet[i].state.latest_odom is Some {
            let odom = fleet[i].state.latest_odom->0;
            let j: int = choose|j: int|
                0 <= j < rest.len() && (#[trigger] rest[j]).x == target.x.difference(
                    odom.x.narrowed(),
                ) && rest[j].y == target.y.difference(odom.y.narrowed());
            assert(ways[j] == rest[j]);
        }
        if 0 <= k < ways.len() {
            if k < rest.len() {
                let j: int = choose|j: int|
                    0 <= j < m && j != agent && ((#[trigger] fleet[j]).state.latest_odom matches Some(
                        odom,
                    ) && rest[k].x == target.x.difference(odom.x.narrowed()) && rest[k].y
                        == target.y.difference(odom.y.narrowed()));
                assert(ways[k] == rest[k]);
                assert(0 <= j < n);
            } else {
                assert(fleet[last].state.latest_odom is Some && last != agent);
            }
        }
        if (forall|j: int| 0 <= j < n ==> (#[trigger] fleet[j]).state.latest_odom is Some) && 0
            <= agent < n && 0 <= i < n && i != agent {
            assert(fleet[last].state.latest_odom is Some);
            lemma_offsets_len(fleet, agent, target, n);
            if agent == last {
                lemma_offsets_before(fleet, agent, target, m, i);
            } else if i < last {
                let j: int = if i < agent {
                    i
                } else {
                    i - 1
                };
                assert(ways[j] == rest[j]);
            }
        }
    }
}

/// How many ways there are where all have reported.
proof fn lemma_offsets_len(fleet: Seq<Entry>, agent: int, target: Position, n: nat)
    requires
        n <= fleet.len(),
    ensures
        (forall|j: int| 0 <= j < n ==> (#[trigger] fleet[j]).state.latest_odom is Some)
            ==> offsets(fleet, agent, target, n).len() == if 0 <= agent < n {
            n - 1
        } else {
            n as int
        },
    decreases n,
{
    if n > 0 {
        lemma_offsets_len(fleet, agent, target, (n - 1) as nat);
    }
}

/// The ways of those before the robot itself.
proof fn lemma_offsets_before(fleet: Seq<Entry>, agent: int, target: Position, n: nat, i: int)
    requires
        n <= fleet.len(),
        n <= agent,
        0 <= i < n,
        forall|j: int| 0 <= j < n ==> (#[trigger] fleet[j]).state.latest_odom is Some,
    ensures
        offsets(fleet, agent, target, n).len() == n,
        offsets(fleet, agent, target, n)[i].x == target.x.difference(
            fleet[i].state.latest_odom->0.x.narrowed(),
        ),
        offsets(fleet, agent, target, n)[i].y == target.y.difference(
            fleet[i].state.latest_odom->0.y.narrowed(),
        ),
    decreases n,
{
    let m: nat = (n - 1) as nat;
    assert(fleet[m as int].state.latest_odom is Some);
    lemma_offsets_len(fleet, agent, target, m);
    if i < m {
        lemma_offsets_before(fleet, agent, target, m, i);
    }
}

/// Which waypoint is released: the last one of the plan where nothing blocks; otherwise the one at
/// which the robot has to wait, or the one before that, if there is one, where another robot is
/// nearer to it than 0.8.
pub proof fn law_release_in_detail(frontier: int, count: int, distances: Seq<Single>)
    requires
        0 <= frontier,
        0 < count,
    ensures
        frontier >= count ==> settled(frontier, count, distances) == count - 1,
        frontier < count && (exists|k: int|
            0 <= k < distances.len() && !(#[trigger] distances[k]).nan() && distances[k].units()
                < magnitude(0x3f4c_cccd)) ==> settled(frontier, count, distances) == if frontier
            == 0 {
            0
        } else {
            frontier - 1
        },
        frontier < count && (forall|k: int|
            0 <= k < distances.len() ==> (#[trigger] distances[k]).nan() || distances[k].units()
                >= magnitude(0x3f4c_cccd)) ==> settled(frontier, count, distances) == frontier,
{
}

} // verus!
