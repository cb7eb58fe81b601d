use rmf_prototype::double::Double;
use rmf_prototype::executor::{OdometryStep, PlanExecutor};
use rmf_prototype::messages::{Blocker, Odometry, Plan, PlanId, Pose, Position, Time, Waypoint};
use rmf_prototype::region::DomainRegion;
use rmf_prototype::single::Single;

fn single(x: f32) -> Single {
    Single { bits: x.to_bits() }
}

fn double(x: f64) -> Double {
    Double { bits: x.to_bits() }
}

fn value(s: Single) -> f32 {
    f32::from_bits(s.bits)
}

fn at(x: f32, y: f32) -> Position {
    Position {
        x: single(x),
        y: single(y),
    }
}

fn odom(x: f64, y: f64, sec: i32) -> Odometry {
    Odometry {
        x: double(x),
        y: double(y),
        stamp: Time { sec, nanosec: 7 },
    }
}

fn waypoint(x: f32, y: f32, blockers: &[(&str, f64)]) -> Waypoint {
    Waypoint {
        position: at(x, y),
        departure_blockers: blockers
            .iter()
            .map(|(name, progress)| Blocker {
                name: name.to_string(),
                required_progress: double(*progress),
            })
            .collect(),
    }
}

fn plan(version: u64, waypoints: Vec<Waypoint>) -> Plan {
    Plan {
        plan_id: PlanId {
            plan_version: version,
        },
        start_time: Time { sec: 1, nanosec: 2 },
        waypoints,
    }
}

/// Two robots in the lower left corner, both with plans.
fn pair() -> PlanExecutor {
    let mut executor = PlanExecutor::new();
    assert!(executor.handle_robot_added("b", single(0.25)));
    assert!(executor.handle_robot_added("a", single(0.5)));
    assert!(executor.handle_plan(
        "a",
        plan(
            3,
            vec![
                waypoint(1.0, 1.0, &[]),
                waypoint(2.0, 1.0, &[("b", 1.0)]),
                waypoint(3.0, 1.0, &[("b", 2.4)]),
                waypoint(4.0, 1.0, &[("gone", 0.0)]),
                waypoint(5.0, 1.0, &[]),
            ],
        )
    ));
    assert!(executor.handle_plan(
        "b",
        plan(4, vec![waypoint(1.0, 5.0, &[]), waypoint(4.5, 1.0, &[])])
    ));
    executor
}

#[test]
fn a_new_executor_has_a_default_floor() {
    let executor = PlanExecutor::new();
    assert_eq!(executor.active_robots.len(), 0);
    assert_eq!((executor.grid_width, executor.grid_height), (20, 20));
    assert_eq!(value(executor.grid_resolution), 1.0);
    assert_eq!(executor.grid_origin.orientation.w, double(1.0));
    assert_eq!(executor.grid_origin.position.x, double(0.0));
    assert!(!executor.ready_to_execute());
}

#[test]
fn robots_are_kept_in_the_order_of_their_names() {
    let mut executor = PlanExecutor::new();
    for name in ["m", "z", "a", "ab", "é", "B"] {
        assert!(executor.handle_robot_added(name, single(1.0)));
    }
    assert!(!executor.handle_robot_added("m", single(2.0)));
    let names: Vec<&str> = executor.active_robots.iter().map(|r| r.name.as_str()).collect();
    let mut sorted = names.clone();
    sorted.sort();
    assert_eq!(names, sorted);
    assert_eq!(value(executor.active_robots[3].state.radius), 1.0);
    assert_eq!(executor.get_agent_index("B"), Some(0));
    assert_eq!(executor.get_agent_index("é"), Some(5));
    assert_eq!(executor.get_agent_index("q"), None);
    assert!(executor.handle_robot_removed("a"));
    assert!(!executor.handle_robot_removed("a"));
    assert_eq!(executor.get_agent_index("ab"), Some(1));
}

#[test]
fn trackers_follow_the_plans_and_the_order() {
    let mut executor = pair();
    let follower = executor.active_robots[1].state.waypoint_follower.as_ref().unwrap();
    assert_eq!(follower.agent, 1);
    assert_eq!(follower.trajectory, vec![at(1.0, 5.0), at(4.5, 1.0)]);
    assert_eq!(follower.estimate, None);
    assert_eq!(
        executor.handle_odometry("b", odom(1.0, 5.0, 0)),
        OdometryStep::Wait(Some(at(1.0, 5.0)))
    );
    assert!(executor.handle_robot_removed("a"));
    let follower = executor.active_robots[0].state.waypoint_follower.as_ref().unwrap();
    assert_eq!(follower.agent, 0);
    assert_eq!(follower.estimate, Some(at(1.0, 5.0)));
}

#[test]
fn joining_and_leaving_sets_the_trackers_up_anew() {
    let mut executor = pair();
    let _ = executor.handle_odometry("a", odom(1.0, 1.0, 0));
    assert!(executor.handle_robot_added("aa", single(3.0)));
    let follower = executor.active_robots[2].state.waypoint_follower.as_ref().unwrap();
    assert_eq!(follower.agent, 2);
    assert!(executor.handle_robot_removed("aa"));
    let names: Vec<&str> = executor.active_robots.iter().map(|r| r.name.as_str()).collect();
    assert_eq!(names, vec!["a", "b"]);
    let a = executor.active_robots[0].state.waypoint_follower.as_ref().unwrap();
    let b = executor.active_robots[1].state.waypoint_follower.as_ref().unwrap();
    assert_eq!((a.agent, b.agent), (0, 1));
    assert_eq!((a.estimate, b.estimate), (Some(at(1.0, 1.0)), None));
    assert_eq!(executor.active_robots[0].state.latest_odom, Some(odom(1.0, 1.0, 0)));
}

#[test]
fn no_publisher_outlives_its_robot() {
    let mut executor = pair();
    assert!(executor.enter_release_publisher(0));
    assert!(!executor.enter_release_publisher(0));
    assert!(executor.enter_release_publisher(1));
    assert!(executor.enter_zone_publisher(1));
    assert!(!executor.enter_zone_publisher(1));
    assert!(executor.handle_robot_removed("b"));
    assert!(executor.plan_release_publishers.contains("a"));
    assert!(!executor.plan_release_publishers.contains("b"));
    assert!(!executor.safezone_publishers.contains("b"));
    assert!(!executor.safezone_publishers.contains("a"));
    assert!(executor.handle_robot_added("b", single(1.0)));
    assert!(executor.enter_release_publisher(1));
    assert!(executor.enter_zone_publisher(1));
}

#[test]
fn execution_waits_for_everyone() {
    let mut executor = PlanExecutor::new();
    assert_eq!(
        executor.handle_odometry("a", odom(0.0, 0.0, 0)),
        OdometryStep::Ignore
    );
    assert!(!executor.handle_plan("a", plan(1, vec![])));
    assert!(executor.handle_robot_added("a", single(0.5)));
    assert_eq!(
        executor.handle_odometry("a", odom(0.1, 0.0, 0)),
        OdometryStep::Wait(None)
    );
    assert!(executor.handle_plan("a", plan(1, vec![waypoint(1.0, 1.0, &[])])));
    assert!(executor.ready_to_execute());
    assert_eq!(
        executor.handle_odometry("a", odom(0.1, 0.3, 0)),
        OdometryStep::Execute(at(0.1, 0.3))
    );
    assert!(executor.handle_robot_added("b", single(0.5)));
    assert!(!executor.ready_to_execute());
}

#[test]
fn blockers_hold_a_robot_back() {
    let mut executor = pair();
    let _ = executor.handle_odometry("a", odom(1.0, 1.0, 0));
    let step = executor.handle_odometry("b", odom(1.0, 5.0, 0));
    assert_eq!(step, OdometryStep::Execute(at(1.0, 5.0)));
    assert_eq!(executor.release_frontier(0, &vec![0, 0]), 1);
    assert_eq!(executor.release_frontier(0, &vec![0, 1]), 2);
    // 2.4 rounds to 2; the robot that is missing never clears its waypoint.
    assert_eq!(executor.release_frontier(0, &vec![0, 2]), 3);
    assert_eq!(executor.release_frontier(0, &vec![0, 900]), 3);
    assert_eq!(executor.release_frontier(0, &vec![4, 0]), 5);
    assert_eq!(executor.release_frontier(0, &vec![9, 0]), 9);
    assert_eq!(executor.release_frontier(1, &vec![0, 0]), 2);
}

#[test]
fn a_crowded_frontier_is_not_released() {
    let mut executor = pair();
    let _ = executor.handle_odometry("a", odom(1.0, 1.0, 0));
    let _ = executor.handle_odometry("b", odom(2.25, 0.5, 0));
    let query = executor.begin_release("a", &vec![0, 0]);
    assert_eq!((query.agent, query.frontier), (0, 1));
    assert_eq!(query.offsets, vec![at(-0.25, 0.5)]);
    let near = executor.finish_release(0, query.frontier, &vec![single(0.79)]);
    assert_eq!(near.released, 0);
    assert_eq!(near.release.waypoint_id, 0);
    assert_eq!(near.release.plan_id.plan_version, 3);
    let far = executor.finish_release(0, query.frontier, &vec![single(0.8)]);
    assert_eq!(far.released, 1);
    assert_eq!(executor.settle_release(0, 0, &vec![single(0.1)]), 0);
    assert_eq!(executor.settle_release(0, 5, &vec![]), 4);
    assert_eq!(executor.settle_release(0, 9, &vec![single(0.0)]), 4);
    assert_eq!(executor.settle_release(0, 2, &vec![single(f32::NAN)]), 2);
    assert_eq!(executor.frontier_offsets(0, 5), vec![]);
}

#[test]
fn the_floor_stays_while_everything_is_on_it() {
    let mut executor = pair();
    let _ = executor.handle_odometry("a", odom(1.5, 1.0, 0));
    let _ = executor.handle_odometry("b", odom(20.0, 0.0, 0));
    let step = executor.finish_release(0, 1, &vec![single(9.0)]);
    assert!(!step.relaid);
    assert_eq!((executor.grid_width, executor.grid_height), (20, 20));
    assert_eq!(step.footprints.len(), 2);
    assert_eq!(value(step.footprints[0].radius), 0.5);
    assert_eq!(step.footprints[0].real_position, at(1.5, 1.0));
    assert_eq!(step.footprints[1].trajectory, vec![at(1.0, 5.0), at(4.5, 1.0)]);
}

#[test]
fn the_floor_is_laid_anew_with_a_margin() {
    let mut executor = pair();
    let _ = executor.handle_odometry("a", odom(-3.5, 1.0, 0));
    let _ = executor.handle_odometry("b", odom(20.25, 2.0, 0));
    let step = executor.finish_release(0, 1, &vec![single(9.0)]);
    assert!(step.relaid);
    assert_eq!(executor.grid_origin.position.x, double(-23.5));
    assert_eq!(executor.grid_origin.position.y, double(-19.0));
    // From -23.5 to 40.25 and from -19 to 25.
    assert_eq!((executor.grid_width, executor.grid_height), (64, 44));
    assert_eq!(executor.grid_origin.orientation.w, double(1.0));
    assert_eq!(step.footprints[0].real_position, at(20.0, 20.0));
    assert_eq!(step.footprints[0].trajectory[0], at(24.5, 20.0));
    assert!(!executor.fit_grid());
}

#[test]
fn a_fitted_floor_holds_everything() {
    for (x, y) in [(0.1, -7.3), (1.0e4, -3.3e5), (6.0e7, -6.0e7), (-0.0, 1.0e-30)] {
        let mut executor = pair();
        let _ = executor.handle_odometry("a", odom(x, y, 0));
        let _ = executor.handle_odometry("b", odom(1.0, 5.0, 0));
        let _ = executor.fit_grid();
        assert!(!executor.fit_grid());
        let low = f64::from_bits(executor.grid_origin.position.x.bits);
        assert!(low <= x && x <= low + executor.grid_width as f64);
    }
}

#[test]
fn a_fitted_floor_of_any_resolution_holds_everything() {
    for resolution in [0.05f32, 0.3, 2.5, 7.0, 1.0e30] {
        for (x, y) in [(0.1, -7.3), (1.0e4, -3.3e5), (3.0e7, -3.0e7)] {
            let mut executor = pair();
            executor.grid_resolution = single(resolution);
            let _ = executor.handle_odometry("a", odom(x, y, 0));
            let _ = executor.handle_odometry("b", odom(1.0, 5.0, 0));
            let _ = executor.fit_grid();
            assert!(!executor.fit_grid());
            let low = f64::from_bits(executor.grid_origin.position.y.bits);
            let high = low + executor.grid_height as f64 * resolution as f64;
            assert!(low <= y && 5.0 <= high);
        }
    }
}

#[test]
fn cost_maps_count_rows_from_the_bottom() {
    let origin: Pose = PlanExecutor::new().grid_origin;
    let stamp = Time { sec: 5, nanosec: 6 };
    let map = PlanExecutor::to_costmap_msg(
        &[(0, 0), (2, 1), (3, 0), (0, 2)],
        3,
        2,
        single(0.5),
        origin,
        stamp,
    );
    assert_eq!(map.data, vec![254, 254, 0, 0, 254, 254]);
    assert_eq!((map.size_x, map.size_y), (3, 2));
    assert_eq!(map.frame_id, "map");
    assert_eq!(map.layer, "safe_zone");
    assert_eq!((map.stamp, map.map_load_time, map.update_time), (stamp, stamp, stamp));
    assert_eq!(value(map.resolution), 0.5);
    let empty = PlanExecutor::to_costmap_msg(&[(0, 0)], 0, 9, single(1.0), origin, stamp);
    assert_eq!(empty.data.len(), 0);
}

#[test]
fn safe_zones_count_their_versions() {
    let mut executor = pair();
    let _ = executor.handle_odometry("a", odom(1.0, 1.0, 0));
    let _ = executor.handle_odometry("b", odom(1.0, 5.0, 11));
    assert!(executor.can_map());
    let zone = executor.safe_zone(1, 1, &[(0, 19), (19, 0)]);
    assert_eq!(value(zone.target_region.tolerance), 0.2);
    assert_eq!(zone.target_region.region.hint, DomainRegion::HINT_POINT);
    assert_eq!(zone.target_region.region.points, vec![single(4.5), single(1.0)]);
    assert_eq!(value(zone.target_orientation.orientation_radians), 0.0);
    assert_eq!((zone.target_waypoint, zone.last_waypoint), (1, 1));
    assert_eq!(value(zone.target_progress), 0.0);
    assert_eq!(zone.id.plan_id.plan_version, 4);
    assert_eq!(zone.id.safe_zone_version, 1);
    assert_eq!(zone.costmap.stamp, Time { sec: 11, nanosec: 7 });
    assert_eq!(zone.costmap.data.iter().filter(|c| **c == 0).count(), 2);
    assert_eq!(zone.costmap.data[0], 0);
    assert_eq!(zone.costmap.data[399], 0);
    assert_eq!(executor.safe_zone(1, 0, &[]).id.safe_zone_version, 2);
    assert_eq!(executor.safe_zone(0, 0, &[]).id.safe_zone_version, 1);
    assert!(executor.handle_plan("b", plan(5, vec![waypoint(1.0, 5.0, &[])])));
    let zone = executor.safe_zone(1, 0, &[]);
    assert_eq!(zone.id.safe_zone_version, 1);
    assert_eq!(zone.id.plan_id.plan_version, 5);
}

#[test]
fn a_floor_can_be_too_large_to_map() {
    let mut executor = PlanExecutor::new();
    executor.grid_width = 65_536;
    executor.grid_height = 65_535;
    assert!(executor.can_map());
    executor.grid_height = 65_536;
    assert!(!executor.can_map());
}
