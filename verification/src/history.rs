//! What holds over a whole series of calls of the plan executor.

use crate::costmap::leads_to;
use crate::execution::fitted;
use crate::executor::{
    all_ready, count_before, lemma_joined, lemma_parted, lemma_place_is_count, lemma_planned,
    lemma_reported, lemma_zoned, ordered, stands_at, takes_part, Entry, ExecutorView,
};
use crate::messages::{Odometry, PlanView, SafeZone};
use crate::single::Single;
use vstd::prelude::*;

verus! {

/// What can happen to the plan executor.
pub enum Call {
    /// A robot joins.
    Joined { name: Seq<char>, radius: Single },
    /// A robot leaves.
    Left { name: Seq<char> },
    /// A robot gets a plan.
    Planned { name: Seq<char>, plan: PlanView },
    /// A robot reports its position, and if everybody is ready it gets a release and a safe zone.
    Reported { name: Seq<char>, odom: Odometry },
}

/// Whether a report is followed by a release and a safe zone: the robot takes part, and with the
/// report everybody is ready.
pub open spec fn executes(state: ExecutorView, name: Seq<char>, odom: Odometry) -> bool {
    takes_part(state.fleet, name) && all_ready(state.reported(name, odom).fleet)
}

/// The state after a report, and after the release and the safe zone that may follow it.
pub open spec fn round(state: ExecutorView, name: Seq<char>, odom: Odometry) -> ExecutorView {
    let reported: ExecutorView = state.reported(name, odom);
    if executes(state, name, odom) {
        let laid: ExecutorView = fitted(reported);
        ExecutorView {
            release_publishers: laid.release_publishers.insert(name),
            zone_publishers: laid.zone_publishers.insert(name),
            ..laid.zoned(count_before(laid.fleet, name) as int)
        }
    } else {
        reported
    }
}

/// The state after a call.
pub open spec fn after(state: ExecutorView, call: Call) -> ExecutorView {
    match call {
        Call::Joined { name, radius } => state.joined(name, radius),
        Call::Left { name } => state.parted(name),
        Call::Planned { name, plan } => state.planned(name, plan),
        Call::Reported { name, odom } => round(state, name, odom),
    }
}

/// The state after a series of calls.
pub open spec fn run(state: ExecutorView, calls: Seq<Call>) -> ExecutorView
    decreases calls.len(),
{
    if calls.len() == 0 {
        state
    } else {
        after(run(state, calls.drop_last()), calls.last())
    }
}

/// The call neither gives the robot a plan nor takes it away.
pub open spec fn leaves_alone(call: Call, robot: Seq<char>) -> bool {
    match call {
        Call::Left { name } => name != robot,
        Call::Planned { name, .. } => name != robot,
        _ => true,
    }
}

/// The call has a safe zone sent to the robot.
pub open spec fn sends_zone(state: ExecutorView, call: Call, robot: Seq<char>) -> bool {
    call matches Call::Reported { name, odom } && name == robot && executes(state, name, odom)
}

/// How many safe zones a series of calls has sent to a robot.
pub open spec fn zones_sent(state: ExecutorView, calls: Seq<Call>, robot: Seq<char>) -> nat
    decreases calls.len(),
{
    if calls.len() == 0 {
        0
    } else {
        zones_sent(state, calls.drop_last(), robot) + if sends_zone(
            run(state, calls.drop_last()),
            calls.last(),
            robot,
        ) {
            1nat
        } else {
            0nat
        }
    }
}

/// The version of the last safe zone of a robot.
pub open spec fn version_of(state: ExecutorView, robot: Seq<char>) -> u64 {
    state.fleet[count_before(state.fleet, robot) as int].state.safe_zone_version
}

/// The robot stands at a place, and its last safe zone has the given version.
spec fn has_version(fleet: Seq<Entry>, robot: Seq<char>, i: int, version: u64) -> bool {
    stands_at(fleet, robot, i) && fleet[i].state.safe_zone_version == version
}

proof fn lemma_version(state: ExecutorView, robot: Seq<char>, i: int, version: u64)
    requires
        ordered(state.fleet),
        has_version(state.fleet, robot, i, version),
    ensures
        takes_part(state.fleet, robot),
        version_of(state, robot) == version,
{
    lemma_place_is_count(state.fleet, robot, i);
}

/// Fitting the grid leaves everything else alone.
proof fn lemma_fitted(state: ExecutorView)
    ensures
        fitted(state).fleet == state.fleet,
        fitted(state).release_publishers == state.release_publishers,
        fitted(state).zone_publishers == state.zone_publishers,
        state.in_order() ==> fitted(state).in_order(),
{
}

/// Entering where releases and safe zones are sent keeps the state in order, if it is to a robot
/// that takes part.
proof fn lemma_entered(state: ExecutorView, name: Seq<char>)
    requires
        state.in_order(),
        takes_part(state.fleet, name),
    ensures
        (ExecutorView {
            release_publishers: state.release_publishers.insert(name),
            zone_publishers: state.zone_publishers.insert(name),
            ..state
        }).in_order(),
{
}

/// A report, with what may follow it, keeps the state in order.
#[verifier::rlimit(50)]
proof fn lemma_round_keeps_order(state: ExecutorView, name: Seq<char>, odom: Odometry)
    requires
        state.in_order(),
    ensures
        round(state, name, odom).in_order(),
{
    let reported: ExecutorView = state.reported(name, odom);
    lemma_reported(state, name, odom);
    if executes(state, name, odom) {
        let laid: ExecutorView = fitted(reported);
        lemma_fitted(reported);
        let p: int = choose|p: int| stands_at(state.fleet, name, p);
        lemma_place_is_count(state.fleet, name, p);
        assert(stands_at(laid.fleet, name, p));
        lemma_place_is_count(laid.fleet, name, p);
        lemma_zoned(laid, p);
        assert(stands_at(laid.zoned(p).fleet, name, p));
        lemma_entered(laid.zoned(p), name);
    }
}

/// Every call keeps the state in order.
pub proof fn lemma_call_keeps_order(state: ExecutorView, call: Call)
    requires
        state.in_order(),
    ensures
        after(state, call).in_order(),
{
    match call {
        Call::Joined { name, radius } => {
            lemma_joined(state, name, radius);
        },
        Call::Left { name } => {
            lemma_parted(state, name);
        },
        Call::Planned { name, plan } => {
            lemma_planned(state, name, plan);
        },
        Call::Reported { name, odom } => {
            lemma_round_keeps_order(state, name, odom);
        },
    }
}

/// A call changes the version of a robot's safe zone by one where it has one sent, and not at all
/// otherwise, unless it gives the robot a plan or takes it away.
#[verifier::rlimit(50)]
proof fn lemma_call_and_version(state: ExecutorView, call: Call, robot: Seq<char>)
    requires
        state.in_order(),
        takes_part(state.fleet, robot),
        leaves_alone(call, robot),
        sends_zone(state, call, robot) ==> version_of(state, robot) < u64::MAX,
    ensures
        takes_part(after(state, call).fleet, robot),
        version_of(after(state, call), robot) == version_of(state, robot) + if sends_zone(
            state,
            call,
            robot,
        ) {
            1int
        } else {
            0int
        },
{
    let fleet: Seq<Entry> = state.fleet;
    let next: ExecutorView = after(state, call);
    let i: int = choose|i: int| stands_at(fleet, robot, i);
    let version: u64 = version_of(state, robot);
    lemma_place_is_count(fleet, robot, i);
    lemma_call_keeps_order(state, call);
    match call {
        Call::Joined { name, radius } => {
            if !takes_part(fleet, name) {
                let p: int = count_before(fleet, name) as int;
                lemma_count_bound(fleet, name);
                let j: int = if i < p {
                    i
                } else {
                    i + 1
                };
                assert(next.fleet[j].name == robot);
                assert(has_version(next.fleet, robot, j, version));
                lemma_version(next, robot, j, version);
            }
        },
        Call::Left { name } => {
            if takes_part(fleet, name) {
                let p: int = choose|p: int| stands_at(fleet, name, p);
                lemma_place_is_count(fleet, name, p);
                let left: Seq<Entry> = fleet.remove(p);
                let j: int = if i < p {
                    i
                } else {
                    i - 1
                };
                assert(left[j] == fleet[i]);
                assert(has_version(next.fleet, robot, j, version));
                lemma_version(next, robot, j, version);
            }
        },
        Call::Planned { name, plan } => {
            if takes_part(fleet, name) {
                let p: int = choose|p: int| stands_at(fleet, name, p);
                lemma_place_is_count(fleet, name, p);
                assert(has_version(next.fleet, robot, i, version));
                lemma_version(next, robot, i, version);
            }
        },
        Call::Reported { name, odom } => {
            if takes_part(fleet, name) {
                let p: int = choose|p: int| stands_at(fleet, name, p);
                lemma_place_is_count(fleet, name, p);
                let reported: ExecutorView = state.reported(name, odom);
                lemma_reported(state, name, odom);
                assert(stands_at(reported.fleet, name, p));
                lemma_place_is_count(reported.fleet, name, p);
                let grown: u64 = if sends_zone(state, call, robot) {
                    (version + 1) as u64
                } else {
                    version
                };
                if name == robot {
                    assert(p == i);
                }
                assert(has_version(next.fleet, robot, i, grown));
                lemma_version(next, robot, i, grown);
            }
        },
    }
}

/// The place of a name is within the fleet or right behind it.
proof fn lemma_count_bound(fleet: Seq<Entry>, name: Seq<char>)
    ensures
        count_before(fleet, name) <= fleet.len(),
    decreases fleet.len(),
{
    if fleet.len() > 0 {
        lemma_count_bound(fleet.drop_last(), name);
    }
}

/// Whatever happens to an executor that starts without robots: nothing is sent to a robot that
/// does not take part, and the robots with a tracker are those with a plan.
pub proof fn law_nothing_is_kept_for_the_absent(start: ExecutorView, calls: Seq<Call>)
    requires
        start.fleet.len() == 0,
        start.release_publishers == Set::<Seq<char>>::empty(),
        start.zone_publishers == Set::<Seq<char>>::empty(),
    ensures
        run(start, calls).in_order(),
        forall|name: Seq<char>| #[trigger]
            run(start, calls).release_publishers.contains(name) ==> takes_part(
                run(start, calls).fleet,
                name,
            ),
        forall|name: Seq<char>| #[trigger]
            run(start, calls).zone_publishers.contains(name) ==> takes_part(
                run(start, calls).fleet,
                name,
            ),
        forall|i: int|
            0 <= i < run(start, calls).fleet.len() ==> ((#[trigger] run(
                start,
                calls,
            ).fleet[i]).state.waypoint_follower is Some <==> run(start, calls).fleet[i].state.plan is Some),
    decreases calls.len(),
{
    if calls.len() > 0 {
        law_nothing_is_kept_for_the_absent(start, calls.drop_last());
        lemma_call_keeps_order(run(start, calls.drop_last()), calls.last());
    }
}

/// Safe zones are counted from the plan on: the last one that was sent to a robot bears, as its
/// version, the number of those that were sent to it since it got its plan, whatever happened to
/// the other robots meanwhile.
pub proof fn law_zone_versions_count_up(
    state: ExecutorView,
    robot: Seq<char>,
    plan: PlanView,
    calls: Seq<Call>,
)
    requires
        state.in_order(),
        takes_part(state.fleet, robot),
        forall|i: int| 0 <= i < calls.len() ==> leaves_alone(#[trigger] calls[i], robot),
        zones_sent(state.planned(robot, plan), calls, robot) <= u64::MAX,
    ensures
        ({
            let start: ExecutorView = state.planned(robot, plan);
            let end: ExecutorView = run(start, calls);
            &&& takes_part(end.fleet, robot)
            &&& version_of(end, robot) == zones_sent(start, calls, robot)
            &&& forall|zone: SafeZone, released: usize, cells: Seq<(usize, usize)>| #[trigger]
                leads_to(
                    zone,
                    end,
                    count_before(end.fleet, robot) as int,
                    released,
                    cells,
                ) ==> zone.id.safe_zone_version == zones_sent(start, calls, robot)
        }),
{
    let start: ExecutorView = state.planned(robot, plan);
    let i: int = choose|i: int| stands_at(state.fleet, robot, i);
    lemma_place_is_count(state.fleet, robot, i);
    lemma_planned(state, robot, plan);
    assert(has_version(start.fleet, robot, i, 0));
    lemma_version(start, robot, i, 0);
    lemma_versions(start, robot, calls);
}

proof fn lemma_versions(start: ExecutorView, robot: Seq<char>, calls: Seq<Call>)
    requires
        start.in_order(),
        takes_part(start.fleet, robot),
        version_of(start, robot) == 0,
        forall|i: int| 0 <= i < calls.len() ==> leaves_alone(#[trigger] calls[i], robot),
        zones_sent(start, calls, robot) <= u64::MAX,
    ensures
        run(start, calls).in_order(),
        takes_part(run(start, calls).fleet, robot),
        version_of(run(start, calls), robot) == zones_sent(start, calls, robot),
    decreases calls.len(),
{
    if calls.len() > 0 {
        let rest: Seq<Call> = calls.drop_last();
        assert forall|i: int| 0 <= i < rest.len() implies leaves_alone(#[trigger] rest[i], robot) by {
            assert(rest[i] == calls[i]);
        }
        lemma_versions(start, robot, rest);
        assert(leaves_alone(calls[calls.len() - 1], robot));
        lemma_call_keeps_order(run(start, rest), calls.last());
        lemma_call_and_version(run(start, rest), calls.last(), robot);
    }
}

} // verus!
