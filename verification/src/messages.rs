//! What the robots and the services tell each other, as plain values.

use crate::double::Double;
use crate::region::DomainTargetRegion;
use crate::single::Single;
use vstd::prelude::*;

verus! {

/// A point in time.
#[derive(Clone, Copy, Debug, PartialEq, Eq, Structural)]
pub struct Time {
    pub sec: i32,
    pub nanosec: u32,
}

/// A position on the floor.
#[derive(Clone, Copy, Debug, PartialEq)]
pub struct Position {
    pub x: Single,
    pub y: Single,
}

/// A point in space.
#[derive(Clone, Copy, Debug, PartialEq)]
pub struct Point {
    pub x: Double,
    pub y: Double,
    pub z: Double,
}

/// A rotation in space.
#[derive(Clone, Copy, Debug, PartialEq)]
pub struct Quaternion {
    pub x: Double,
    pub y: Double,
    pub z: Double,
    pub w: Double,
}

/// A position and a rotation in space.
#[derive(Clone, Copy, Debug, PartialEq)]
pub struct Pose {
    pub position: Point,
    pub orientation: Quaternion,
}

/// Where a robot is, and when it was there.
#[derive(Clone, Copy, Debug, PartialEq)]
pub struct Odometry {
    pub x: Double,
    pub y: Double,
    pub stamp: Time,
}

impl Odometry {
    /// The position in single precision.
    pub open spec fn place(self) -> Position {
        Position { x: self.x.narrowed(), y: self.y.narrowed() }
    }

    /// The position in single precision.
    pub fn position(&self) -> (r: Position)
        ensures
            r == self.place(),
    {
        Position { x: self.x.to_single(), y: self.y.to_single() }
    }
}

/// Identifies a version of a plan.
#[derive(Clone, Copy, Debug, PartialEq, Eq, Structural)]
pub struct PlanId {
    pub plan_version: u64,
}

/// A robot that has to have come so far before a waypoint may be left behind.
#[derive(Debug)]
pub struct Blocker {
    pub name: String,
    pub required_progress: Double,
}

/// What a blocker holds.
pub struct BlockerView {
    pub name: Seq<char>,
    pub required_progress: Double,
}

impl View for Blocker {
    type V = BlockerView;

    open spec fn view(&self) -> BlockerView {
        BlockerView { name: self.name@, required_progress: self.required_progress }
    }
}

/// A stop on the way of a robot.
#[derive(Debug)]
pub struct Waypoint {
    pub position: Position,
    pub departure_blockers: Vec<Blocker>,
}

/// What a waypoint holds.
pub struct WaypointView {
    pub position: Position,
    pub departure_blockers: Seq<BlockerView>,
}

impl View for Waypoint {
    type V = WaypointView;

    open spec fn view(&self) -> WaypointView {
        WaypointView {
            position: self.position,
            departure_blockers: Seq::new(
                self.departure_blockers@.len(),
                |i: int| self.departure_blockers@[i]@,
            ),
        }
    }
}

/// The way of a robot.
#[derive(Debug)]
pub struct Plan {
    pub plan_id: PlanId,
    pub start_time: Time,
    pub waypoints: Vec<Waypoint>,
}

/// What a plan holds.
pub struct PlanView {
    pub plan_id: PlanId,
    pub start_time: Time,
    pub waypoints: Seq<WaypointView>,
}

impl View for Plan {
    type V = PlanView;

    open spec fn view(&self) -> PlanView {
        PlanView {
            plan_id: self.plan_id,
            start_time: self.start_time,
            waypoints: Seq::new(self.waypoints@.len(), |i: int| self.waypoints@[i]@),
        }
    }
}

impl PlanView {
    /// The positions of the waypoints.
    pub open spec fn route(self) -> Seq<Position> {
        Seq::new(self.waypoints.len(), |i: int| self.waypoints[i].position)
    }
}

/// Permission to go as far as a waypoint.
#[derive(Clone, Copy, Debug, PartialEq, Eq, Structural)]
pub struct PlanRelease {
    pub waypoint_id: u64,
    pub plan_id: PlanId,
}

/// A map of costs, row by row from the lowest row up.
#[derive(Debug)]
pub struct Costmap {
    pub stamp: Time,
    pub frame_id: String,
    pub map_load_time: Time,
    pub update_time: Time,
    pub layer: String,
    pub resolution: Single,
    pub size_x: u32,
    pub size_y: u32,
    pub origin: Pose,
    pub data: Vec<u8>,
}

/// The orientation in which a region is to be reached.
#[derive(Clone, Copy, Debug, PartialEq)]
pub struct TargetOrientation {
    pub orientation_radians: Single,
    pub spread_radians: Single,
    pub tolerance_radians: Single,
}

/// Identifies a version of a safe zone.
#[derive(Clone, Copy, Debug, PartialEq, Eq, Structural)]
pub struct SafeZoneId {
    pub plan_id: PlanId,
    pub safe_zone_version: u64,
}

/// Where a robot may go next, and which part of the floor is its own on the way.
#[derive(Debug)]
pub struct SafeZone {
    pub target_region: DomainTargetRegion,
    pub target_orientation: TargetOrientation,
    pub costmap: Costmap,
    pub target_waypoint: u64,
    pub last_waypoint: u64,
    pub target_progress: Single,
    pub id: SafeZoneId,
}

} // verus!
