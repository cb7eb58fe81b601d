//! Nothing is left out of what the contracts speak of: requests, plans, robots and positions are
//! taken as they are given, entry by entry.

use crate::executor::PlanExecutor;
use crate::messages::{Odometry, Plan, Waypoint};
use crate::region::{
    alternatives, DomainDestinationConstraints, DomainRegion, DomainTargetRegion,
};
use crate::session::SessionUUID;
use vstd::prelude::*;

verus! {

/// A region is taken with all its coordinates and its hint, and the hints are 1 and 2.
pub proof fn law_region_as_given(region: DomainRegion, target: DomainTargetRegion)
    ensures
        region@.points == region.points@,
        region@.hint == region.hint,
        target@.tolerance == target.tolerance,
        target@.region.points == target.region.points@,
        target@.region.hint == target.region.hint,
        DomainRegion::HINT_POINT == 1,
        DomainRegion::HINT_AXIS_ALIGNED_RECTANGLE == 2,
{
}

/// An alternative is taken with all its regions, in the order given, and a list of alternatives
/// with all of them.
pub proof fn law_alternatives_as_given(
    list: Seq<DomainDestinationConstraints>,
    i: int,
    j: int,
)
    ensures
        alternatives(list).len() == list.len(),
        0 <= i < list.len() ==> alternatives(list)[i].len() == list[i].regions@.len(),
        0 <= i < list.len() ==> list[i]@ == alternatives(list)[i],
        0 <= i < list.len() && 0 <= j < list[i].regions@.len() ==> {
            &&& alternatives(list)[i][j].tolerance == list[i].regions@[j].tolerance
            &&& alternatives(list)[i][j].region.points == list[i].regions@[j].region.points@
            &&& alternatives(list)[i][j].region.hint == list[i].regions@[j].region.hint
        },
{
}

/// A session is taken with all its bytes.
pub proof fn law_session_as_given(session: SessionUUID, i: int)
    ensures
        session@.len() == 16,
        session@ == session.uuid@,
{
}

/// A waypoint is taken with its position and all its blockers, in the order given.
pub proof fn law_waypoint_as_given(waypoint: Waypoint, k: int)
    ensures
        waypoint@.position == waypoint.position,
        waypoint@.departure_blockers.len() == waypoint.departure_blockers@.len(),
        0 <= k < waypoint.departure_blockers@.len() ==> {
            &&& waypoint@.departure_blockers[k].name == waypoint.departure_blockers@[k].name@
            &&& waypoint@.departure_blockers[k].required_progress
                == waypoint.departure_blockers@[k].required_progress
        },
{
}

/// A plan is taken with its identifier, its start and all its waypoints, and its route is made of
/// their positions.
pub proof fn law_plan_as_given(plan: Plan, i: int)
    ensures
        plan@.plan_id == plan.plan_id,
        plan@.start_time == plan.start_time,
        plan@.waypoints.len() == plan.waypoints@.len(),
        plan@.route().len() == plan.waypoints@.len(),
        0 <= i < plan.waypoints@.len() ==> {
            &&& plan@.waypoints[i] == plan.waypoints@[i]@
            &&& plan@.route()[i] == plan.waypoints@[i].position
        },
{
}

/// A reported position is taken along both axes, in single precision.
pub proof fn law_odometry_as_given(odom: Odometry)
    ensures
        odom.place().x == odom.x.narrowed(),
        odom.place().y == odom.y.narrowed(),
{
}

/// The executor is taken with all its robots, in the order in which they stand, and with all that
/// is known of each of them.
pub proof fn law_executor_as_given(executor: PlanExecutor, i: int)
    ensures
        executor@.fleet.len() == executor.active_robots@.len(),
        executor@.grid_width == executor.grid_width,
        executor@.grid_height == executor.grid_height,
        executor@.grid_resolution == executor.grid_resolution,
        executor@.grid_origin == executor.grid_origin,
        executor@.release_publishers == executor.plan_release_publishers@,
        executor@.zone_publishers == executor.safezone_publishers@,
        0 <= i < executor.active_robots@.len() ==> ({
            let robot = executor.active_robots@[i];
            let entry = executor@.fleet[i];
            &&& entry.name == robot.name@
            &&& entry.state.radius == robot.state.radius
            &&& entry.state.latest_odom == robot.state.latest_odom
            &&& entry.state.safe_zone_version == robot.state.safe_zone_version
            &&& entry.state.last_incremental_target_wp == robot.state.last_incremental_target_wp
            &&& entry.state.plan is Some <==> robot.state.plan is Some
            &&& robot.state.plan matches Some(plan) ==> entry.state.plan == Some(plan@)
            &&& entry.state.waypoint_follower is Some <==> robot.state.waypoint_follower is Some
            &&& robot.state.waypoint_follower matches Some(follower) ==> {
                &&& entry.state.waypoint_follower->0.agent == follower.agent
                &&& entry.state.waypoint_follower->0.trajectory == follower.trajectory@
                &&& entry.state.waypoint_follower->0.estimate == follower.estimate
                &&& entry.state.waypoint_follower->0.reports == follower.reports@
            }
            &&& robot.state.latest_odom matches Some(odom) ==> entry.state.place() == Some(
                odom.place(),
            )
            &&& robot.state.latest_odom is None ==> entry.state.place() is None
        }),
{
}

} // verus!
