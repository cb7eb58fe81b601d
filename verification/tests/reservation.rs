use rmf_prototype::occupancy::CurrentlyOccupiedDestinations;
use rmf_prototype::region::{
    DomainDestinationConstraints, DomainDestinationGoal, DomainRegion, DomainTargetRegion,
    ReservationError, ShapeErr,
};
use rmf_prototype::server::DestinationsServer;
use rmf_prototype::session::SessionUUID;
use rmf_prototype::single::Single;

fn single(x: f32) -> Single {
    Single { bits: x.to_bits() }
}

fn points(values: &[f32]) -> Vec<Single> {
    values.iter().map(|x| single(*x)).collect()
}

fn rectangle(values: &[f32]) -> DomainRegion {
    DomainRegion {
        hint: DomainRegion::HINT_AXIS_ALIGNED_RECTANGLE,
        points: points(values),
    }
}

fn constraints(regions: Vec<DomainRegion>) -> DomainDestinationConstraints {
    DomainDestinationConstraints {
        regions: regions
            .into_iter()
            .map(|region| DomainTargetRegion {
                tolerance: single(0.0),
                region,
            })
            .collect(),
    }
}

fn session(n: u8) -> SessionUUID {
    SessionUUID { uuid: [n; 16] }
}

fn create_test_occupied() -> CurrentlyOccupiedDestinations {
    CurrentlyOccupiedDestinations::new(single(1.0))
}

#[test]
fn test_mark_and_check_region() {
    let mut od = create_test_occupied();
    let session = SessionUUID { uuid: [1; 16] };
    let region = DomainRegion {
        hint: DomainRegion::HINT_AXIS_ALIGNED_RECTANGLE,
        points: points(&[0.0, 0.0, 2.0, 2.0]),
    };

    assert!(od.check_if_region_free(&region, None).unwrap());
    od.mark_region(&session, &region);
    assert!(!od.check_if_region_free(&region, None).unwrap());

    assert!(od.session_to_location.contains_key(&session));
    assert_eq!(od.session_to_location.get(&session).unwrap().len(), 9);
}

#[test]
fn test_clear_old_uuid() {
    let mut od = create_test_occupied();
    let session = SessionUUID { uuid: [1; 16] };
    let region = DomainRegion {
        hint: DomainRegion::HINT_AXIS_ALIGNED_RECTANGLE,
        points: points(&[0.0, 0.0, 1.0, 1.0]),
    };

    od.mark_region(&session, &region);
    assert!(!od.check_if_region_free(&region, None).unwrap());

    od.clear_old_uuid(&session);
    assert!(od.check_if_region_free(&region, None).unwrap());
    assert!(!od.session_to_location.contains_key(&session));
}

#[test]
fn test_reserve_one_of() {
    let mut od = create_test_occupied();
    let agent = "robot_1";
    let session1 = SessionUUID { uuid: [1; 16] };
    let session2 = SessionUUID { uuid: [2; 16] };

    let constraints = vec![
        DomainDestinationConstraints {
            regions: vec![DomainTargetRegion {
                tolerance: single(0.0),
                region: DomainRegion {
                    hint: DomainRegion::HINT_AXIS_ALIGNED_RECTANGLE,
                    points: points(&[0.0, 0.0, 1.0, 1.0]),
                },
            }],
        },
        DomainDestinationConstraints {
            regions: vec![DomainTargetRegion {
                tolerance: single(0.0),
                region: DomainRegion {
                    hint: DomainRegion::HINT_AXIS_ALIGNED_RECTANGLE,
                    points: points(&[5.0, 5.0, 6.0, 6.0]),
                },
            }],
        },
    ];

    let res = od.reserve_one_of(agent, &constraints, &session1);
    assert!(res.is_ok());
    assert_eq!(res.unwrap(), constraints[0]);
    assert_eq!(od.agent_to_session.get(agent), Some(&session1));
    assert!(!od
        .check_if_region_free(&constraints[0].regions[0].region, None)
        .unwrap());

    let res = od.reserve_one_of(agent, &[constraints[1].clone()], &session2);
    assert!(res.is_ok());
    assert_eq!(res.unwrap(), constraints[1]);
    assert_eq!(od.agent_to_session.get(agent), Some(&session2));
    assert!(od
        .check_if_region_free(&constraints[0].regions[0].region, None)
        .unwrap());
    assert!(!od
        .check_if_region_free(&constraints[1].regions[0].region, None)
        .unwrap());

    let session3 = SessionUUID { uuid: [3; 16] };
    let res = od.reserve_one_of("robot_2", &[constraints[1].clone()], &session3);
    assert_eq!(res, Err(ReservationError::NoAvailableConstraints));
}

#[test]
fn bounds_cover_fractional_cells() {
    let od = CurrentlyOccupiedDestinations::new(single(0.5));
    assert_eq!(
        od.get_region_grid_bounds(&rectangle(&[0.6, 1.1, 2.2, 0.2])),
        Some((1, 5, 0, 3))
    );
    let unit = CurrentlyOccupiedDestinations::default();
    assert_eq!(unit.grid_size, single(1.0));
    let point = DomainRegion {
        hint: DomainRegion::HINT_POINT,
        points: points(&[3.0, 4.5]),
    };
    assert_eq!(unit.get_region_grid_bounds(&point), Some((3, 3, 4, 5)));
}

#[test]
fn bounds_cut_off_negative_coordinates() {
    let od = create_test_occupied();
    assert_eq!(
        od.get_region_grid_bounds(&rectangle(&[-3.0, -2.0, 1.5, 2.0])),
        Some((0, 2, 0, 2))
    );
    assert_eq!(
        od.get_region_grid_bounds(&rectangle(&[-3.0, 1.0, -1.0, 2.0])),
        None
    );
    assert_eq!(
        od.get_region_grid_bounds(&rectangle(&[f32::NAN, 1.0, 2.5, 2.0])),
        Some((2, 3, 1, 2))
    );
}

#[test]
fn malformed_regions_are_told_apart() {
    let od = create_test_occupied();
    let hint = DomainRegion {
        hint: 7,
        points: points(&[0.0, 0.0]),
    };
    assert!(matches!(
        od.check_if_region_free(&hint, None),
        Err(ShapeErr::UnsupportedHint)
    ));
    assert!(matches!(
        od.check_if_region_free(&rectangle(&[1.0]), None),
        Err(ShapeErr::InvalidPoints)
    ));
    assert!(matches!(
        od.check_if_region_free(&rectangle(&[1.0, 2.0, 3.0]), None),
        Ok(true)
    ));
    assert!(matches!(
        od.check_if_region_free(&rectangle(&[-2.0, -2.0, -1.0, -1.0]), None),
        Ok(true)
    ));
}

#[test]
fn an_agent_may_keep_its_own_cells() {
    let mut od = create_test_occupied();
    let first = vec![constraints(vec![rectangle(&[0.0, 0.0, 2.0, 2.0])])];
    let shifted = vec![constraints(vec![rectangle(&[1.0, 1.0, 3.0, 3.0])])];
    assert!(od.reserve_one_of("a", &first, &session(1)).is_ok());
    assert!(od.reserve_one_of("b", &shifted, &session(2)).is_err());
    assert!(od.reserve_one_of("a", &shifted, &session(3)).is_ok());
    assert!(!od.session_to_location.contains_key(&session(1)));
    assert_eq!(od.session_to_location.get(&session(3)).unwrap().len(), 9);
    assert!(od.check_if_region_free(&rectangle(&[0.0, 0.0, 0.0, 0.0]), None).unwrap());
}

#[test]
fn a_refusal_changes_nothing_and_others_keep_their_cells() {
    let mut od = create_test_occupied();
    let here = vec![constraints(vec![rectangle(&[0.0, 0.0, 1.0, 1.0])])];
    let there = vec![constraints(vec![rectangle(&[4.0, 4.0, 5.0, 5.0])])];
    assert!(od.reserve_one_of("a", &here, &session(1)).is_ok());
    assert!(od.reserve_one_of("b", &there, &session(2)).is_ok());
    assert!(od.reserve_one_of("b", &here, &session(3)).is_err());
    assert_eq!(od.agent_to_session.get("b"), Some(&session(2)));
    assert!(!od.session_to_location.contains_key(&session(3)));
    assert_eq!(
        od.session_to_location.get(&session(1)).unwrap(),
        &vec![(0, 0), (1, 0), (0, 1), (1, 1)]
    );
    assert!(!od
        .check_if_region_free(&there[0].regions[0].region, Some(&session(1)))
        .unwrap());
    assert!(od
        .check_if_region_free(&there[0].regions[0].region, Some(&session(2)))
        .unwrap());
}

fn goal(one_of: Vec<DomainDestinationConstraints>, cost_bias: &[f32]) -> DomainDestinationGoal {
    DomainDestinationGoal {
        one_of,
        cost_bias: points(cost_bias),
        session: session(9),
    }
}

#[test]
fn requests_prefer_fewer_regions() {
    let mut server = DestinationsServer::new(single(1.0));
    let two = constraints(vec![rectangle(&[0.0, 0.0, 1.0, 1.0]), rectangle(&[2.0, 2.0, 3.0, 3.0])]);
    let one = constraints(vec![rectangle(&[5.0, 5.0, 6.0, 6.0])]);
    let other = constraints(vec![rectangle(&[8.0, 8.0, 9.0, 9.0])]);
    let request = goal(vec![two.clone(), one.clone(), other.clone()], &[]);
    assert!(server.can_serve("a", &request));
    let granted = server.request_destination("a", &request);
    assert!(matches!(&granted, Ok(d) if d.constraints == one && d.session == session(9)));
    let granted = server.request_destination("b", &goal(vec![two, one, other.clone()], &[1.0, 2.0, 3.0]));
    assert!(matches!(&granted, Ok(d) if d.constraints == other));
}

#[test]
fn refusals_say_why() {
    let mut server = DestinationsServer::new(single(1.0));
    let spot = constraints(vec![rectangle(&[5.0, 5.0, 6.0, 6.0])]);
    let refused = server
        .request_destination("a", &goal(vec![spot.clone()], &[1.0, 2.0]))
        .err()
        .unwrap();
    assert_eq!(refused.error.code, 0);
    assert_eq!(refused.error.message, "Number of goals and destinations do not match");
    assert_eq!(refused.error.parameters, "TODO");
    assert_eq!(refused.session, session(9));
    let refused = server.request_destination("a", &goal(vec![], &[])).err().unwrap();
    assert_eq!(refused.error.message, "No goals provided");
    assert_eq!(refused.error.parameters, "one_of is empty");
    assert!(server.request_destination("a", &goal(vec![spot.clone()], &[])).is_ok());
    let refused = server
        .request_destination("b", &DomainDestinationGoal {
            one_of: vec![spot],
            cost_bias: vec![],
            session: session(8),
        })
        .err()
        .unwrap();
    assert_eq!(refused.error.message, "No available constraints");
    assert_eq!(refused.error.parameters, "");
    assert_eq!(refused.session, session(8));
}

#[test]
fn endless_regions_cannot_be_served() {
    let server = DestinationsServer::new(single(1.0));
    let endless = constraints(vec![rectangle(&[0.0, 0.0, f32::INFINITY, 1.0])]);
    assert!(!server.can_serve("a", &goal(vec![endless.clone()], &[])));
    assert!(server.can_serve("a", &goal(vec![endless], &[1.0, 2.0])));
}

#[test]
fn sessions_print_as_uuids() {
    let id = SessionUUID {
        uuid: [
            0x12, 0x3e, 0x45, 0x67, 0xe8, 0x9b, 0x12, 0xd3, 0xa4, 0x56, 0x42, 0x66, 0x14, 0x17,
            0x40, 0x0f,
        ],
    };
    assert_eq!(id.to_text(), "123e4567-e89b-12d3-a456-42661417400f");
    assert!(id.same(&id));
    assert!(!id.same(&session(1)));
}

#[test]
fn regions_cover_the_cells_of_their_points() {
    let od = CurrentlyOccupiedDestinations::new(single(0.3));
    let corners = [0.0f32, 7.5, 1.1, 0.2, 3.9, 4.4];
    let (start_x, end_x, start_y, end_y) = od.get_region_grid_bounds(&rectangle(&corners)).unwrap();
    for point in corners.chunks(2) {
        let x = (point[0] / 0.3).floor() as usize;
        let y = (point[1] / 0.3).floor() as usize;
        assert!(start_x <= x && x <= end_x && start_y <= y && y <= end_y);
    }
}

#[test]
fn regions_are_compared_by_value() {
    assert_eq!(rectangle(&[0.0, 1.0]), rectangle(&[-0.0, 1.0]));
    assert_ne!(rectangle(&[0.5, 1.0]), rectangle(&[0.0, 1.0]));
    assert_ne!(rectangle(&[f32::NAN, 1.0]), rectangle(&[f32::NAN, 1.0]));
}

#[test]
fn the_order_of_points_does_not_matter() {
    let od = CurrentlyOccupiedDestinations::new(single(0.3));
    let forward = od.get_region_grid_bounds(&rectangle(&[-0.0, 2.0, 0.0, -1.0, 3.1, 0.7]));
    let backward = od.get_region_grid_bounds(&rectangle(&[3.1, 0.7, 0.0, -1.0, -0.0, 2.0]));
    assert_eq!(forward, backward);
    assert_eq!(forward, Some((0, 11, 0, 7)));
    let point = DomainRegion {
        hint: DomainRegion::HINT_POINT,
        points: points(&[3.1, 0.7]),
    };
    assert_eq!(
        od.get_region_grid_bounds(&point),
        od.get_region_grid_bounds(&rectangle(&[3.1, 0.7]))
    );
}

#[test]
fn one_more_point_never_shrinks_a_rectangle() {
    let od = create_test_occupied();
    assert_eq!(
        od.get_region_grid_bounds(&rectangle(&[2.0, 2.0, 3.5, 4.0])),
        Some((2, 4, 2, 4))
    );
    assert_eq!(
        od.get_region_grid_bounds(&rectangle(&[2.0, 2.0, 3.5, 4.0, -1.0, 9.0])),
        Some((0, 4, 2, 9))
    );
}

#[test]
fn the_floor_grows_and_keeps_its_shape() {
    let mut od = create_test_occupied();
    od.mark_region(&session(1), &rectangle(&[1.0, 2.0, 3.0, 3.0]));
    let lengths = |od: &CurrentlyOccupiedDestinations| -> Vec<usize> {
        od.floor_space.iter().map(|row| row.len()).collect()
    };
    assert_eq!(lengths(&od), vec![0, 0, 4, 4]);
    od.mark_region(&session(2), &rectangle(&[0.0, 0.0, 1.0, 2.0]));
    assert_eq!(lengths(&od), vec![2, 2, 4, 4]);
    od.clear_old_uuid(&session(1));
    od.clear_old_uuid(&session(9));
    assert_eq!(lengths(&od), vec![2, 2, 4, 4]);
}

#[test]
fn biases_have_no_influence() {
    let spots = || {
        vec![
            constraints(vec![rectangle(&[1.0, 1.0, 2.0, 2.0])]),
            constraints(vec![rectangle(&[5.0, 5.0, 6.0, 6.0])]),
        ]
    };
    for bias in [&[][..], &[9.0, -1.0][..], &[f32::NAN, 0.0][..]] {
        let mut server = DestinationsServer::new(single(1.0));
        let granted = server.request_destination("a", &goal(spots(), bias));
        assert!(matches!(&granted, Ok(d) if d.constraints == spots()[0]));
    }
}

#[test]
fn every_held_cell_belongs_to_an_agent() {
    let mut server = DestinationsServer::new(single(1.0));
    let spots = [[0.0f32, 0.0, 1.0, 1.0], [1.0, 1.0, 3.0, 2.0], [4.0, 0.0, 5.0, 5.0]];
    for (n, agent) in ["a", "b", "a", "c", "b", "a"].iter().enumerate() {
        let request = DomainDestinationGoal {
            one_of: vec![constraints(vec![rectangle(&spots[n % 3])])],
            cost_bias: vec![],
            session: session(n as u8),
        };
        let _ = server.request_destination(agent, &request);
        let od = &server.currently_occupied;
        for held in od.floor_space.iter().flatten().flatten() {
            assert!(["a", "b", "c"].iter().any(|who| od.agent_to_session.get(who) == Some(held)));
        }
    }
}
