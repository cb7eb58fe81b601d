use rmf_prototype::discovery::DiscoveryServer;
use rmf_prototype::double::Double;
use rmf_prototype::messages::{Plan, PlanId, Position, Time, Waypoint};
use rmf_prototype::names::{place, same_name, Place};
use rmf_prototype::region::{DomainDestinationConstraints, DomainRegion, DomainTargetRegion};
use rmf_prototype::single::Single;
use rmf_prototype::topics::{marker_topic, plan_topic, release_topic, safe_zone_topic};
use rmf_prototype::visualizer::{plan_marker, robot_name, safe_zone_marker, Shape};

fn single(x: f32) -> Single {
    Single { bits: x.to_bits() }
}

fn double(x: f64) -> Double {
    Double { bits: x.to_bits() }
}

fn strings(values: &[&str]) -> Vec<String> {
    values.iter().map(|s| s.to_string()).collect()
}

#[test]
fn robots_are_discovered_once() {
    let mut server = DiscoveryServer::new();
    let topics = server.discovered("tiny").unwrap();
    assert_eq!(topics.destination, "tiny/destination");
    assert_eq!(topics.error, "tiny/destination/error");
    assert_eq!(topics.goal, "tiny/destination/goal");
    assert!(server.discovered("tiny").is_some());
    server.connected("tiny");
    assert!(server.discovered("tiny").is_none());
    assert!(server.discovered("other").is_some());
    assert!(!server.left("other"));
    assert!(server.left("tiny"));
    assert!(!server.left("tiny"));
    assert!(server.discovered("tiny").is_some());
}

#[test]
fn names_are_ordered_by_their_bytes() {
    let names = ["", "a", "ab", "b", "é", "z", "\u{10ffff}", "\u{ffff}", "robot_1", "robot_10"];
    for a in names {
        for b in names {
            let expected = if a < b {
                Place::Before
            } else if a == b {
                Place::Same
            } else {
                Place::After
            };
            assert!(place(a, b) == expected, "{a} {b}");
            assert_eq!(same_name(a, b), a == b);
        }
    }
}

#[test]
fn topics_bear_the_robot_name() {
    assert_eq!(plan_topic("r"), "r/plan");
    assert_eq!(safe_zone_topic("r"), "r/plan/safe_zone");
    assert_eq!(release_topic("r"), "r/plan/release");
    assert_eq!(marker_topic("r"), "r/path_markers");
}

#[test]
fn the_robot_is_the_first_plain_argument() {
    assert_eq!(robot_name(&strings(&[])), "robot0");
    assert_eq!(robot_name(&strings(&["program"])), "robot0");
    assert_eq!(robot_name(&strings(&["program", "--ros-args", "-r", "tiny", "big"])), "tiny");
    assert_eq!(robot_name(&strings(&["program", ""])), "");
    assert_eq!(robot_name(&strings(&["program", "-", "--x"])), "robot0");
}

#[test]
fn plans_are_shown_as_green_lines() {
    let plan = Plan {
        plan_id: PlanId { plan_version: 1 },
        start_time: Time { sec: 3, nanosec: 4 },
        waypoints: [(0.1f32, 2.0f32), (-1.5, 0.25)]
            .iter()
            .map(|(x, y)| Waypoint {
                position: Position {
                    x: single(*x),
                    y: single(*y),
                },
                departure_blockers: vec![],
            })
            .collect(),
    };
    let marker = plan_marker("tiny", &plan);
    assert_eq!(marker.frame_id, "map");
    assert_eq!(marker.stamp, Time { sec: 3, nanosec: 4 });
    assert_eq!(marker.ns, "tiny");
    assert_eq!(marker.id, 0);
    assert_eq!(marker.shape, Shape::LineStrip);
    assert_eq!(marker.color.g, single(1.0));
    assert_eq!(marker.color.r, single(0.0));
    assert_eq!(marker.color.a, single(1.0));
    assert_eq!(marker.scale.x, double(0.05));
    assert!(marker.pose.is_none());
    assert_eq!(marker.points.len(), 2);
    assert_eq!(marker.points[0].x, double(0.1f32 as f64));
    assert_eq!(marker.points[1].y, double(0.25));
}

#[test]
fn targets_are_shown_as_red_dots() {
    let target = |points: &[f32]| DomainDestinationConstraints {
        regions: vec![DomainTargetRegion {
            tolerance: single(0.0),
            region: DomainRegion {
                hint: DomainRegion::HINT_POINT,
                points: points.iter().map(|x| single(*x)).collect(),
            },
        }],
    };
    let none = DomainDestinationConstraints { regions: vec![] };
    assert!(safe_zone_marker("tiny", &none).is_none());
    assert!(safe_zone_marker("tiny", &target(&[1.0])).is_none());
    let marker = safe_zone_marker("tiny", &target(&[1.5, -2.5, 9.0])).unwrap();
    assert_eq!(marker.ns, "tiny_safe_zone");
    assert_eq!(marker.id, 1);
    assert_eq!(marker.shape, Shape::Sphere);
    assert_eq!(marker.color.r, single(1.0));
    assert_eq!(marker.scale.z, double(0.25));
    let pose = marker.pose.unwrap();
    assert_eq!(pose.position.x, double(1.5));
    assert_eq!(pose.position.y, double(-2.5));
    assert_eq!(pose.orientation.w, double(1.0));
    assert_eq!(marker.points.len(), 0);
}
