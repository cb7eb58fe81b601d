//! Markers that show the plan of a robot and where it is headed.

use crate::double::Double;
use crate::executor::{DOUBLE_ONE, SINGLE_ONE};
use crate::messages::{Plan, Point, Pose, Position, Quaternion, Time};
use crate::region::DomainDestinationConstraints;
use crate::single::Single;
use vstd::prelude::*;

verus! {

/// 0.05 in double precision: the width of the line along a plan.
pub const LINE_WIDTH: u64 = 0x3fa9_9999_9999_999a;

/// 0.25 in double precision: the size of the dot on a target.
pub const DOT_SIZE: u64 = 0x3fd0_0000_0000_0000;

/// What a marker looks like.
#[derive(Clone, Copy, Debug, PartialEq, Eq, Structural)]
pub enum Shape {
    LineStrip,
    Sphere,
}

/// A colour with its opacity.
#[derive(Clone, Copy, Debug, PartialEq)]
pub struct Color {
    pub r: Single,
    pub g: Single,
    pub b: Single,
    pub a: Single,
}

/// Something to be drawn on the map.
#[derive(Debug)]
pub struct Marker {
    pub frame_id: String,
    pub stamp: Time,
    pub ns: String,
    pub id: i32,
    pub shape: Shape,
    pub color: Color,
    pub scale: Point,
    /// Where the marker is; none where its points say so.
    pub pose: Option<Pose>,
    pub points: Vec<Point>,
}

/// The point on the floor with the given position.
pub open spec fn on_floor(p: Position) -> Point {
    Point { x: Double::widened(p.x), y: Double::widened(p.y), z: Double { bits: 0 } }
}

/// The argument is not an option.
pub open spec fn names_robot(arg: Seq<char>) -> bool {
    arg.len() == 0 || arg[0] != '-'
}

/// The first argument from `from` on that is not an option.
pub open spec fn robot_argument(args: Seq<String>, from: int) -> Seq<char>
    decreases args.len() - from,
{
    if from >= args.len() {
        "robot0"@
    } else if names_robot(args[from]@) {
        args[from]@
    } else {
        robot_argument(args, from + 1)
    }
}

/// The robot to show: the first argument after the program that is not an option, or a default.
pub fn robot_name(args: &Vec<String>) -> (r: String)
    ensures
        r@ == robot_argument(args@, 1),
{
    let mut i: usize = 1;
    while i < args.len()
        invariant
            1 <= i,
            robot_argument(args@, 1) == robot_argument(args@, i as int),
        decreases args.len() - i,
    {
        let arg: &str = args[i].as_str();
        if arg.is_empty() || arg.get_char(0) != '-' {
            return arg.to_owned();
        }
        i = i + 1;
    }
    "robot0".to_owned()
}

/// A green line along the waypoints of a plan.
pub fn plan_marker(robot_name: &str, plan: &Plan) -> (r: Marker)
    ensures
        r.frame_id@ == "map"@,
        r.stamp == plan.start_time,
        r.ns@ == robot_name@,
        r.id == 0,
        r.shape == Shape::LineStrip,
        r.color == (Color {
            r: Single { bits: 0 },
            g: Single { bits: SINGLE_ONE },
            b: Single { bits: 0 },
            a: Single { bits: SINGLE_ONE },
        }),
        r.scale == (Point {
            x: Double { bits: LINE_WIDTH },
            y: Double { bits: 0 },
            z: Double { bits: 0 },
        }),
        r.pose is None,
        r.points@ == plan@.route().map_values(|p: Position| on_floor(p)),
{
    let mut points: Vec<Point> = Vec::new();
    let mut i: usize = 0;
    while i < plan.waypoints.len()
        invariant
            i <= plan.waypoints@.len(),
            points@.len() == i,
            forall|j: int| 0 <= j < i ==> #[trigger] points@[j] == on_floor(plan@.route()[j]),
        decreases plan.waypoints@.len() - i,
    {
        let p: Position = plan.waypoints[i].position;
        points.push(
            Point {
                x: Double::from_single(p.x),
                y: Double::from_single(p.y),
                z: Double { bits: 0 },
            },
        );
        i = i + 1;
    }
    assert(points@ =~= plan@.route().map_values(|p: Position| on_floor(p)));
    Marker {
        frame_id: "map".to_owned(),
        stamp: plan.start_time,
        ns: robot_name.to_owned(),
        id: 0,
        shape: Shape::LineStrip,
        color: Color {
            r: Single { bits: 0 },
            g: Single { bits: SINGLE_ONE },
            b: Single { bits: 0 },
            a: Single { bits: SINGLE_ONE },
        },
        scale: Point {
            x: Double { bits: LINE_WIDTH },
            y: Double { bits: 0 },
            z: Double { bits: 0 },
        },
        pose: None,
        points,
    }
}

/// The marker is a red dot at a point of the floor.
pub open spec fn dot_at(marker: Marker, robot_name: Seq<char>, p: Position) -> bool {
    &&& marker.frame_id@ == "map"@
    &&& marker.stamp == (Time { sec: 0, nanosec: 0 })
    &&& marker.ns@ == robot_name + "_safe_zone"@
    &&& marker.id == 1
    &&& marker.shape == Shape::Sphere
    &&& marker.color == (Color {
        r: Single { bits: SINGLE_ONE },
        g: Single { bits: 0 },
        b: Single { bits: 0 },
        a: Single { bits: SINGLE_ONE },
    })
    &&& marker.scale == (Point {
        x: Double { bits: DOT_SIZE },
        y: Double { bits: DOT_SIZE },
        z: Double { bits: DOT_SIZE },
    })
    &&& marker.pose == Some(
        Pose {
            position: on_floor(p),
            orientation: Quaternion {
                x: Double { bits: 0 },
                y: Double { bits: 0 },
                z: Double { bits: 0 },
                w: Double { bits: DOUBLE_ONE },
            },
        },
    )
    &&& marker.points@.len() == 0
}

/// A red dot on the first point of the first region that a robot is headed for; none where there
/// is no such point.
pub fn safe_zone_marker(robot_name: &str, target: &DomainDestinationConstraints) -> (r: Option<
    Marker,
>)
    ensures
        r is Some <==> target@.len() > 0 && target@[0].region.points.len() >= 2,
        r matches Some(marker) ==> dot_at(
            marker,
            robot_name@,
            Position { x: target@[0].region.points[0], y: target@[0].region.points[1] },
        ),
{
    if target.regions.len() == 0 {
        return None;
    }
    let points: &Vec<Single> = &target.regions[0].region.points;
    if points.len() < 2 {
        return None;
    }
    let zero: Double = Double { bits: 0 };
    let dot: Double = Double { bits: DOT_SIZE };
    Some(
        Marker {
            frame_id: "map".to_owned(),
            stamp: Time { sec: 0, nanosec: 0 },
            ns: robot_name.to_owned().concat("_safe_zone"),
            id: 1,
            shape: Shape::Sphere,
            color: Color {
                r: Single { bits: SINGLE_ONE },
                g: Single { bits: 0 },
                b: Single { bits: 0 },
                a: Single { bits: SINGLE_ONE },
            },
            scale: Point { x: dot, y: dot, z: dot },
            pose: Some(
                Pose {
                    position: Point {
                        x: Double::from_single(points[0]),
                        y: Double::from_single(points[1]),
                        z: zero,
                    },
                    orientation: Quaternion {
                        x: zero,
                        y: zero,
                        z: zero,
                        w: Double { bits: DOUBLE_ONE },
                    },
                },
            ),
            points: Vec::new(),
        },
    )
}

} // verus!
