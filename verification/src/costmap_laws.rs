//! Cost maps and safe zones, cell by cell and field by field.

use crate::costmap::{labelled, law_cell_is_free_iff_allocated, leads_to, shows};
use crate::executor::ExecutorView;
use crate::messages::{Costmap, Pose, SafeZone, Time};
use crate::single::Single;
use vstd::prelude::*;

verus! {

/// What a cost map shows: one entry for each cell, the rows from the bottom up while cells count
/// theirs from the top down; 0 for the cells that are allocated and 254 for all others.
pub proof fn law_map_in_detail(map: Costmap, positions: Seq<(usize, usize)>, x: usize, y: usize)
    requires
        shows(map, positions),
    ensures
        map.data@.len() == map.size_x * map.size_y,
        x < map.size_x && y < map.size_y ==> {
            let place: int = (map.size_y - 1 - y) * map.size_x + x;
            &&& 0 <= place < map.data@.len()
            &&& positions.contains((x, y)) ==> map.data@[place] == 0
            &&& !positions.contains((x, y)) ==> map.data@[place] == 254
        },
{
    if x < map.size_x && y < map.size_y {
        law_cell_is_free_iff_allocated(map, positions, x, y);
    }
}

/// What is written on a cost map.
pub proof fn law_labels_in_detail(
    map: Costmap,
    width: u32,
    height: u32,
    resolution: Single,
    origin: Pose,
    stamp: Time,
)
    requires
        labelled(map, width, height, resolution, origin, stamp),
    ensures
        map.size_x == width,
        map.size_y == height,
        map.resolution == resolution,
        map.origin == origin,
        map.stamp == stamp,
        map.map_load_time == stamp,
        map.update_time == stamp,
        map.frame_id@ == seq!['m', 'a', 'p'],
        map.layer@ == seq!['s', 'a', 'f', 'e', '_', 'z', 'o', 'n', 'e'],
{
    reveal_strlit("map");
    reveal_strlit("safe_zone");
    assert("map"@ =~= seq!['m', 'a', 'p']);
    assert("safe_zone"@ =~= seq!['s', 'a', 'f', 'e', '_', 'z', 'o', 'n', 'e']);
}

/// What a safe zone says: its target is the point at the very waypoint of the plan that it names,
/// to be reached within 0.2 and in any orientation; its map has the size, the place and the
/// resolution of the grid, bears the time of the robot's latest report, and shows the cells
/// allocated to the robot; and it is identified by the robot's plan and its version.
#[verifier::rlimit(50)]
pub proof fn law_zone_in_detail(
    zone: SafeZone,
    state: ExecutorView,
    agent: int,
    released: usize,
    positions: Seq<(usize, usize)>,
)
    requires
        leads_to(zone, state, agent, released, positions),
        state.fleet[agent].state.plan is Some,
        released < state.fleet[agent].state.plan->0.waypoints.len(),
    ensures
        ({
            let robot = state.fleet[agent].state;
            let waypoints = robot.plan->0.waypoints;
            let map = zone.costmap;
            &&& zone.target_waypoint == released
            &&& zone.last_waypoint == released
            &&& 0 <= zone.target_waypoint < waypoints.len()
            &&& zone.target_region.region.points@.len() == 2
            &&& zone.target_region.region.points@[0]
                == waypoints[zone.target_waypoint as int].position.x
            &&& zone.target_region.region.points@[1]
                == waypoints[zone.target_waypoint as int].position.y
            &&& zone.target_region.region.hint == 1
            &&& zone.target_region.tolerance.bits == 0x3e4c_cccd
            &&& zone.target_orientation.orientation_radians.bits == 0
            &&& zone.target_orientation.spread_radians.bits == 0
            &&& zone.target_orientation.tolerance_radians.bits == 0
            &&& zone.target_progress.bits == 0
            &&& zone.id.plan_id == robot.plan->0.plan_id
            &&& zone.id.safe_zone_version == robot.safe_zone_version
            &&& map.size_x == state.grid_width
            &&& map.size_y == state.grid_height
            &&& map.resolution == state.grid_resolution
            &&& map.origin == state.grid_origin
            &&& map.stamp == robot.latest_odom->0.stamp
            &&& map.map_load_time == robot.latest_odom->0.stamp
            &&& map.update_time == robot.latest_odom->0.stamp
            &&& map.data@.len() == state.grid_width * state.grid_height
            &&& shows(map, positions)
        }),
{
    assert(zone.target_region@.region.points == zone.target_region.region.points@);
}

} // verus!
