//! What joining, leaving, plans and reports do, robot by robot.

use crate::executor::{
    all_ready, count_before, lemma_joined, lemma_parted, lemma_place_is_count, lemma_planned,
    lemma_reported, ordered, reindexed, stands_at, takes_part, Entry, ExecutorView, RobotView,
};
use crate::messages::{Odometry, PlanView, Position};
use crate::names::{bytes_before, name_before};
use crate::single::Single;
use vstd::prelude::*;
use vstd::utf8::encode_utf8;

verus! {

/// Who takes part, and as which agent: the robot at a place of the order is the agent of that
/// place.
pub proof fn law_agents_are_places(fleet: Seq<Entry>, name: Seq<char>, i: int)
    requires
        ordered(fleet),
        0 <= i < fleet.len(),
        fleet[i].name == name,
    ensures
        takes_part(fleet, name),
        count_before(fleet, name) == i,
{
    assert(stands_at(fleet, name, i));
    lemma_place_is_count(fleet, name, i);
}

/// A robot takes part only where an entry bears its name.
pub proof fn law_strangers_take_no_part(fleet: Seq<Entry>, name: Seq<char>)
    requires
        forall|i: int| 0 <= i < fleet.len() ==> (#[trigger] fleet[i]).name != name,
    ensures
        !takes_part(fleet, name),
{
    if takes_part(fleet, name) {
        let i: int = choose|i: int| stands_at(fleet, name, i);
        assert(fleet[i].name != name);
    }
}

/// Execution goes on exactly if there is a robot and every robot has a plan, a position and a
/// tracker.
pub proof fn law_ready_in_detail(fleet: Seq<Entry>)
    ensures
        all_ready(fleet) <==> fleet.len() > 0 && forall|i: int|
            0 <= i < fleet.len() ==> (#[trigger] fleet[i]).state.plan is Some
                && fleet[i].state.latest_odom is Some && fleet[i].state.waypoint_follower is Some,
{
    if fleet.len() > 0 && (forall|i: int|
        0 <= i < fleet.len() ==> (#[trigger] fleet[i]).state.plan is Some
            && fleet[i].state.latest_odom is Some && fleet[i].state.waypoint_follower is Some) {
        assert forall|i: int| 0 <= i < fleet.len() implies (#[trigger] fleet[i]).state.ready() by {}
    }
    if all_ready(fleet) {
        assert forall|i: int| 0 <= i < fleet.len() implies (#[trigger] fleet[i]).state.plan is Some
            && fleet[i].state.latest_odom is Some && fleet[i].state.waypoint_follower is Some by {
            assert(fleet[i].state.ready());
        }
    }
}

/// The order of the robots: no two bear the same name, and each name comes before those after it.
/// Names are compared byte by byte; the first difference decides, and a name comes before every
/// longer one that begins with it.
pub proof fn law_order_of_names(a: Seq<char>, b: Seq<char>, k: int)
    requires
        0 <= k <= encode_utf8(a).len(),
        k <= encode_utf8(b).len(),
        forall|i: int| 0 <= i < k ==> encode_utf8(a)[i] == encode_utf8(b)[i],
    ensures
        k < encode_utf8(a).len() && k < encode_utf8(b).len() && encode_utf8(a)[k]
            < encode_utf8(b)[k] ==> name_before(a, b) && !name_before(b, a),
        k == encode_utf8(a).len() && k < encode_utf8(b).len() ==> name_before(a, b)
            && !name_before(b, a),
        k == encode_utf8(a).len() && k == encode_utf8(b).len() ==> !name_before(a, b)
            && !name_before(b, a),
{
    lemma_first_difference(encode_utf8(a), encode_utf8(b), k);
}

proof fn lemma_first_difference(a: Seq<u8>, b: Seq<u8>, k: int)
    requires
        0 <= k <= a.len(),
        k <= b.len(),
        forall|i: int| 0 <= i < k ==> a[i] == b[i],
    ensures
        k < a.len() && k < b.len() && a[k] < b[k] ==> bytes_before(a, b) && !bytes_before(b, a),
        k == a.len() && k < b.len() ==> bytes_before(a, b) && !bytes_before(b, a),
        k == a.len() && k == b.len() ==> !bytes_before(a, b) && !bytes_before(b, a),
    decreases k,
{
    if k > 0 {
        let x: Seq<u8> = a.drop_first();
        let y: Seq<u8> = b.drop_first();
        assert(a[0] == b[0]);
        assert forall|i: int| 0 <= i < k - 1 implies x[i] == y[i] by {
            assert(a[i + 1] == b[i + 1]);
        }
        lemma_first_difference(x, y, k - 1);
    }
}

/// The tracker of a robot with a plan, right after all trackers were set up anew: it follows the
/// robot as the agent of its place, along all the waypoints of the plan, and was told nothing but
/// the latest position, if there is one. Without a plan there is no new tracker. Nothing else of a
/// robot changes.
pub proof fn law_trackers_set_up_anew(fleet: Seq<Entry>, i: int, j: int)
    requires
        0 <= i < fleet.len(),
    ensures
        ({
            let before: Entry = fleet[i];
            let after: Entry = reindexed(fleet)[i];
            &&& reindexed(fleet).len() == fleet.len()
            &&& after.name == before.name
            &&& after.state.radius == before.state.radius
            &&& after.state.latest_odom == before.state.latest_odom
            &&& after.state.plan == before.state.plan
            &&& after.state.safe_zone_version == before.state.safe_zone_version
            &&& after.state.last_incremental_target_wp == before.state.last_incremental_target_wp
            &&& before.state.plan is None ==> after.state.waypoint_follower
                == before.state.waypoint_follower
            &&& before.state.plan matches Some(plan) ==> {
                &&& after.state.waypoint_follower is Some
                &&& after.state.waypoint_follower->0.agent == i
                &&& after.state.waypoint_follower->0.trajectory.len() == plan.waypoints.len()
                &&& 0 <= j < plan.waypoints.len() ==> after.state.waypoint_follower->0.trajectory[j]
                    == plan.waypoints[j].position
                &&& before.state.latest_odom is None ==> after.state.waypoint_follower->0.estimate
                    is None && after.state.waypoint_follower->0.reports.len() == 0
                &&& before.state.latest_odom matches Some(odom) ==> {
                    let p: Position = Position { x: odom.x.narrowed(), y: odom.y.narrowed() };
                    &&& after.state.waypoint_follower->0.estimate == Some(p)
                    &&& after.state.waypoint_follower->0.reports == seq![p]
                }
            }
        }),
{
}

/// A robot that is new joins: it is there, at a place of its own, with its radius and nothing else.
/// Everybody else stays, in order and with all that is known of them, but for the trackers, which
/// start over. The grid and what is sent to whom stay as they are.
#[verifier::rlimit(50)]
pub proof fn law_joining_in_detail(
    state: ExecutorView,
    name: Seq<char>,
    radius: Single,
    i: int,
) -> (p: int)
    requires
        state.in_order(),
        forall|k: int| 0 <= k < state.fleet.len() ==> (#[trigger] state.fleet[k]).name != name,
    ensures
        ({
            let after: ExecutorView = state.joined(name, radius);
            let robot: Entry = after.fleet[p];
            &&& after.fleet.len() == state.fleet.len() + 1
            &&& ordered(after.fleet)
            &&& after == (ExecutorView { fleet: after.fleet, ..state })
            &&& 0 <= p < after.fleet.len()
            &&& robot.name == name
            &&& robot.state.radius == radius
            &&& robot.state.latest_odom is None
            &&& robot.state.plan is None
            &&& robot.state.waypoint_follower is None
            &&& robot.state.safe_zone_version == 0
            &&& robot.state.last_incremental_target_wp is None
            &&& 0 <= i < state.fleet.len() ==> {
                let q: int = if i < p {
                    i
                } else {
                    i + 1
                };
                let before: Entry = state.fleet[i];
                let now: Entry = after.fleet[q];
                &&& now.name == before.name
                &&& now.state.radius == before.state.radius
                &&& now.state.latest_odom == before.state.latest_odom
                &&& now.state.plan == before.state.plan
                &&& now.state.safe_zone_version == before.state.safe_zone_version
                &&& now.state.last_incremental_target_wp == before.state.last_incremental_target_wp
                &&& now.state.plan matches Some(own) ==> {
                    &&& now.state.waypoint_follower is Some
                    &&& now.state.waypoint_follower->0.agent == q
                    &&& now.state.waypoint_follower->0.trajectory == own.route()
                    &&& now.state.waypoint_follower->0.estimate == now.state.place()
                    &&& now.state.waypoint_follower->0.reports.len() == if now.state.latest_odom is Some {
                        1int
                    } else {
                        0int
                    }
                }
            }
        }),
{
    let fleet: Seq<Entry> = state.fleet;
    law_strangers_take_no_part(fleet, name);
    lemma_joined(state, name, radius);
    let p: int = count_before(fleet, name) as int;
    lemma_count_bound(fleet, name);
    let grown: Seq<Entry> = fleet.insert(p, Entry { name, state: RobotView::fresh(radius) });
    assert(state.joined(name, radius).fleet[p].name == name);
    if 0 <= i < fleet.len() {
        let q: int = if i < p {
            i
        } else {
            i + 1
        };
        assert(grown[q] == fleet[i]);
        assert(state.joined(name, radius).fleet[q] == reindexed(grown)[q]);
    }
    p
}

proof fn lemma_count_bound(fleet: Seq<Entry>, name: Seq<char>)
    ensures
        count_before(fleet, name) <= fleet.len(),
    decreases fleet.len(),
{
    if fleet.len() > 0 {
        lemma_count_bound(fleet.drop_last(), name);
    }
}

/// A robot that takes part does not join again, and one that does not take part neither leaves nor
/// gets a plan nor is heard: nothing changes.
pub proof fn law_nothing_happens_to_strangers(
    state: ExecutorView,
    name: Seq<char>,
    radius: Single,
    plan: PlanView,
    odom: Odometry,
    i: int,
)
    ensures
        0 <= i < state.fleet.len() && state.fleet[i].name == name ==> state.joined(name, radius)
            == state,
        (forall|k: int| 0 <= k < state.fleet.len() ==> (#[trigger] state.fleet[k]).name != name)
            ==> state.parted(name) == state && state.planned(name, plan) == state
            && state.reported(name, odom) == state,
{
    if 0 <= i < state.fleet.len() && state.fleet[i].name == name {
        assert(stands_at(state.fleet, name, i));
    }
    if forall|k: int| 0 <= k < state.fleet.len() ==> (#[trigger] state.fleet[k]).name != name {
        law_strangers_take_no_part(state.fleet, name);
    }
}

/// A robot leaves: it is gone, and nothing is sent to it any more; everybody else stays, in order
/// and with all that is known of them but for the trackers, and so does what is sent to them and
/// the grid.
#[verifier::rlimit(50)]
pub proof fn law_leaving_in_detail(
    state: ExecutorView,
    name: Seq<char>,
    p: int,
    i: int,
    k: int,
)
    requires
        state.in_order(),
        0 <= p < state.fleet.len(),
        state.fleet[p].name == name,
    ensures
        ({
            let after: ExecutorView = state.parted(name);
            &&& after.fleet.len() == state.fleet.len() - 1
            &&& ordered(after.fleet)
            &&& 0 <= k < after.fleet.len() ==> after.fleet[k].name != name
            &&& 0 <= i < state.fleet.len() && i != p ==> {
                let q: int = if i < p {
                    i
                } else {
                    i - 1
                };
                let before: Entry = state.fleet[i];
                let now: Entry = after.fleet[q];
                &&& now.name == before.name
                &&& now.state.radius == before.state.radius
                &&& now.state.latest_odom == before.state.latest_odom
                &&& now.state.plan == before.state.plan
                &&& now.state.safe_zone_version == before.state.safe_zone_version
                &&& now.state.last_incremental_target_wp == before.state.last_incremental_target_wp
                &&& now.state.plan matches Some(own) ==> {
                    &&& now.state.waypoint_follower is Some
                    &&& now.state.waypoint_follower->0.agent == q
                    &&& now.state.waypoint_follower->0.trajectory == own.route()
                    &&& now.state.waypoint_follower->0.estimate == now.state.place()
                    &&& now.state.waypoint_follower->0.reports.len() == if now.state.latest_odom is Some {
                        1int
                    } else {
                        0int
                    }
                }
            }
            &&& after.release_publishers == state.release_publishers.remove(name)
            &&& after.zone_publishers == state.zone_publishers.remove(name)
            &&& after.grid_width == state.grid_width
            &&& after.grid_height == state.grid_height
            &&& after.grid_resolution == state.grid_resolution
            &&& after.grid_origin == state.grid_origin
        }),
{
    let fleet: Seq<Entry> = state.fleet;
    law_agents_are_places(fleet, name, p);
    lemma_parted(state, name);
    let after: ExecutorView = state.parted(name);
    let left: Seq<Entry> = fleet.remove(p);
    if 0 <= i < fleet.len() && i != p {
        let q: int = if i < p {
            i
        } else {
            i - 1
        };
        assert(left[q] == fleet[i]);
        assert(after.fleet[q] == reindexed(left)[q]);
    }
    if 0 <= k < after.fleet.len() && after.fleet[k].name == name {
        assert(stands_at(after.fleet, name, k));
    }
}

/// A robot gets a plan: it has that plan, no safe zone yet, and is otherwise as before; everybody
/// stays at their places with all that is known of them, and all trackers are set up anew.
#[verifier::rlimit(50)]
pub proof fn law_planning_in_detail(
    state: ExecutorView,
    name: Seq<char>,
    plan: PlanView,
    p: int,
    i: int,
)
    requires
        state.in_order(),
        0 <= p < state.fleet.len(),
        state.fleet[p].name == name,
        0 <= i < state.fleet.len(),
    ensures
        ({
            let after: ExecutorView = state.planned(name, plan);
            &&& after.fleet.len() == state.fleet.len()
            &&& after == (ExecutorView { fleet: after.fleet, ..state })
            &&& after.fleet[p].name == name
            &&& after.fleet[p].state.plan == Some(plan)
            &&& after.fleet[p].state.safe_zone_version == 0
            &&& after.fleet[p].state.last_incremental_target_wp is None
            &&& after.fleet[p].state.radius == state.fleet[p].state.radius
            &&& after.fleet[p].state.latest_odom == state.fleet[p].state.latest_odom
            &&& after.fleet[p].state.waypoint_follower is Some
            &&& after.fleet[p].state.waypoint_follower->0.agent == p
            &&& after.fleet[p].state.waypoint_follower->0.trajectory == plan.route()
            &&& after.fleet[p].state.waypoint_follower->0.estimate == state.fleet[p].state.place()
            &&& i != p ==> {
                let before: Entry = state.fleet[i];
                let now: Entry = after.fleet[i];
                &&& now.name == before.name
                &&& now.state.radius == before.state.radius
                &&& now.state.latest_odom == before.state.latest_odom
                &&& now.state.plan == before.state.plan
                &&& now.state.safe_zone_version == before.state.safe_zone_version
                &&& now.state.last_incremental_target_wp == before.state.last_incremental_target_wp
                &&& now.state.plan matches Some(own) ==> {
                    &&& now.state.waypoint_follower is Some
                    &&& now.state.waypoint_follower->0.agent == i
                    &&& now.state.waypoint_follower->0.trajectory == own.route()
                    &&& now.state.waypoint_follower->0.estimate == now.state.place()
                    &&& now.state.waypoint_follower->0.reports.len() == if now.state.latest_odom is Some {
                        1int
                    } else {
                        0int
                    }
                }
            }
        }),
{
    law_agents_are_places(state.fleet, name, p);
    lemma_planned(state, name, plan);
}

/// A robot reports its position: whatever was known before, its latest position is now the one
/// reported, at the time reported; its tracker, if it has one, has it as its estimate and as one
/// report more, and follows the same way as before. Nothing else of the robot changes, and nothing
/// at all of any other robot, of the grid, or of what is sent to whom.
#[verifier::rlimit(50)]
pub proof fn law_reporting_in_detail(
    state: ExecutorView,
    name: Seq<char>,
    odom: Odometry,
    p: int,
    i: int,
)
    requires
        state.in_order(),
        0 <= p < state.fleet.len(),
        state.fleet[p].name == name,
    ensures
        ({
            let after: ExecutorView = state.reported(name, odom);
            let before = state.fleet[p].state;
            let robot = after.fleet[p].state;
            let place: Position = Position { x: odom.x.narrowed(), y: odom.y.narrowed() };
            &&& after.fleet.len() == state.fleet.len()
            &&& after == (ExecutorView { fleet: after.fleet, ..state })
            &&& after.fleet[p].name == name
            &&& robot.latest_odom == Some(odom)
            &&& robot.radius == before.radius
            &&& robot.plan == before.plan
            &&& robot.safe_zone_version == before.safe_zone_version
            &&& robot.last_incremental_target_wp == before.last_incremental_target_wp
            &&& before.waypoint_follower is None ==> robot.waypoint_follower is None
            &&& before.waypoint_follower matches Some(follower) ==> {
                &&& robot.waypoint_follower is Some
                &&& robot.waypoint_follower->0.agent == follower.agent
                &&& robot.waypoint_follower->0.trajectory == follower.trajectory
                &&& robot.waypoint_follower->0.estimate == Some(place)
                &&& robot.waypoint_follower->0.reports == follower.reports.push(place)
            }
            &&& 0 <= i < state.fleet.len() && i != p ==> after.fleet[i] == state.fleet[i]
        }),
{
    law_agents_are_places(state.fleet, name, p);
    lemma_reported(state, name, odom);
}

/// A robot gets one safe zone more: its version goes up by one, and nothing else changes, of this
/// robot or any other.
pub proof fn law_zoning_in_detail(state: ExecutorView, p: int, i: int)
    requires
        0 <= p < state.fleet.len(),
        state.fleet[p].state.safe_zone_version < u64::MAX,
    ensures
        ({
            let after: ExecutorView = state.zoned(p);
            &&& after.fleet.len() == state.fleet.len()
            &&& after == (ExecutorView { fleet: after.fleet, ..state })
            &&& after.fleet[p].state.safe_zone_version == state.fleet[p].state.safe_zone_version
                + 1
            &&& after.fleet[p].name == state.fleet[p].name
            &&& after.fleet[p].state.radius == state.fleet[p].state.radius
            &&& after.fleet[p].state.latest_odom == state.fleet[p].state.latest_odom
            &&& after.fleet[p].state.plan == state.fleet[p].state.plan
            &&& after.fleet[p].state.waypoint_follower == state.fleet[p].state.waypoint_follower
            &&& after.fleet[p].state.last_incremental_target_wp
                == state.fleet[p].state.last_incremental_target_wp
            &&& 0 <= i < state.fleet.len() && i != p ==> after.fleet[i] == state.fleet[i]
        }),
{
}

/// What being in order means: names in order, a tracker exactly for each plan, following it as the
/// agent of the robot's place and up to date, and nothing sent to the absent.
pub proof fn law_in_order_in_detail(state: ExecutorView, i: int, j: int, name: Seq<char>)
    requires
        state.in_order(),
    ensures
        0 <= i < j < state.fleet.len() ==> name_before(state.fleet[i].name, state.fleet[j].name),
        0 <= i < state.fleet.len() ==> (state.fleet[i].state.waypoint_follower is Some
            <==> state.fleet[i].state.plan is Some),
        0 <= i < state.fleet.len() ==> (state.fleet[i].state.waypoint_follower matches Some(
            follower,
        ) ==> follower.agent == i && follower.trajectory == state.fleet[i].state.plan->0.route()
            && follower.estimate == state.fleet[i].state.place()),
        state.release_publishers.contains(name) || state.zone_publishers.contains(name)
            ==> exists|k: int| 0 <= k < state.fleet.len() && (#[trigger] state.fleet[k]).name
            == name,
{
    if state.release_publishers.contains(name) || state.zone_publishers.contains(name) {
        assert(takes_part(state.fleet, name));
        let k: int = choose|k: int| stands_at(state.fleet, name, k);
        assert(state.fleet[k].name == name);
    }
}

} // verus!
