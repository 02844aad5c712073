use choreo_core::constraint::{Constraint, ConstraintData, ConstraintScope};
use choreo_core::path::{
    generate_trajectory, has_negative_count, resolve_scope, waypoints_in_order, CompileError,
    ResolvedScope,
};
use choreo_core::request::{Directive, GuessPoint, TrajectoryRequest};
use choreo_core::robotconfig::ChoreoRobotConfig;
use choreo_core::scalar::Scalar;
use choreo_core::waypoint::{Waypoint, WaypointScope};

fn num(v: f64) -> Scalar {
    Scalar::from_bits(v.to_bits())
}

fn val(s: Scalar) -> f64 {
    f64::from_bits(s.to_bits())
}

fn pose(id: i64, x: f64, y: f64, heading: f64) -> Waypoint {
    let mut w = Waypoint::new(id);
    w.x = num(x);
    w.y = num(y);
    w.heading = num(heading);
    w
}

fn guess(id: i64, x: f64, y: f64, heading: f64, count: i32) -> Waypoint {
    let mut w = pose(id, x, y, heading);
    w.is_initial_guess = true;
    w.control_interval_count = count;
    w
}

fn compile(waypoints: &Vec<Waypoint>, constraints: &Vec<Constraint>) -> TrajectoryRequest {
    generate_trajectory(waypoints, constraints, &ChoreoRobotConfig::default(), 2).unwrap()
}

fn tail_of_request(path_id: i64) -> Vec<Directive> {
    let config = ChoreoRobotConfig::default();
    vec![
        Directive::SetBumpers { length: config.bumper_length, width: config.bumper_width },
        Directive::SetDrivetrain { config },
        Directive::Generate { diagnostics: true, handle: path_id },
    ]
}

fn constraint_part(request: &TrajectoryRequest) -> Vec<Directive> {
    let d = &request.directives;
    let at = d
        .iter()
        .position(|x| matches!(x, Directive::SetControlIntervalCounts { .. }))
        .unwrap();
    d[at + 1..d.len() - 3].to_vec()
}

fn counts_of(request: &TrajectoryRequest) -> Vec<usize> {
    for d in request.directives.iter() {
        if let Directive::SetControlIntervalCounts { counts } = d {
            return counts.clone();
        }
    }
    panic!("no control interval counts");
}

#[test]
fn scope_resolution_does_not_depend_on_endpoint_order() {
    let actual: Vec<i64> = vec![10, 11, 12];
    let forward = ConstraintScope(Some(WaypointScope::First), Some(WaypointScope::Uuid(12)));
    let backward = ConstraintScope(Some(WaypointScope::Uuid(12)), Some(WaypointScope::First));
    let segment = Some(ResolvedScope::Segment { from_index: 0, to_index: 2 });
    assert_eq!(resolve_scope(&actual, &forward), segment);
    assert_eq!(resolve_scope(&actual, &backward), segment);
}

#[test]
fn pairing_rule_of_the_two_endpoints() {
    let actual: Vec<i64> = vec![10, 11, 12];
    assert_eq!(resolve_scope(&actual, &ConstraintScope(None, None)), None);
    assert_eq!(
        resolve_scope(&actual, &ConstraintScope(Some(WaypointScope::Uuid(11)), None)),
        Some(ResolvedScope::Waypoint { index: 1 })
    );
    assert_eq!(
        resolve_scope(&actual, &ConstraintScope(None, Some(WaypointScope::Last))),
        Some(ResolvedScope::Waypoint { index: 2 })
    );
    assert_eq!(
        resolve_scope(
            &actual,
            &ConstraintScope(Some(WaypointScope::Last), Some(WaypointScope::Uuid(11)))
        ),
        Some(ResolvedScope::Segment { from_index: 1, to_index: 2 })
    );
    assert_eq!(
        resolve_scope(
            &actual,
            &ConstraintScope(Some(WaypointScope::Uuid(11)), Some(WaypointScope::Uuid(11)))
        ),
        Some(ResolvedScope::Segment { from_index: 1, to_index: 1 })
    );
    // an endpoint that is not found counts as absent
    assert_eq!(
        resolve_scope(
            &actual,
            &ConstraintScope(Some(WaypointScope::Uuid(99)), Some(WaypointScope::First))
        ),
        Some(ResolvedScope::Waypoint { index: 0 })
    );
    assert_eq!(
        resolve_scope(&actual, &ConstraintScope(Some(WaypointScope::Uuid(99)), None)),
        None
    );
    assert_eq!(
        resolve_scope(&vec![], &ConstraintScope(Some(WaypointScope::First), Some(WaypointScope::Last))),
        None
    );
}

#[test]
fn guess_points_are_grouped_into_their_segment() {
    let mut a = pose(2, 0.0, 0.0, 0.0);
    a.control_interval_count = 10;
    let g1 = guess(3, 0.25, 0.5, 0.1, 7);
    let g2 = guess(4, 0.75, 0.5, 0.2, 8);
    let mut b = pose(5, 1.0, 1.0, 0.0);
    b.control_interval_count = 5;
    let request = compile(&vec![a, g1, g2, b], &vec![]);
    let mut expected = vec![
        Directive::PoseWpt { index: 0, x: num(0.0), y: num(0.0), heading: num(0.0) },
        Directive::SgmtInitialGuessPoints {
            from_index: 0,
            guess_points: vec![
                GuessPoint { x: num(0.25), y: num(0.5), heading: num(0.1) },
                GuessPoint { x: num(0.75), y: num(0.5), heading: num(0.2) },
            ],
        },
        Directive::PoseWpt { index: 1, x: num(1.0), y: num(1.0), heading: num(0.0) },
        Directive::SetControlIntervalCounts { counts: vec![10 + 7 + 8] },
    ];
    expected.extend(tail_of_request(2));
    assert_eq!(request.directives, expected);
    assert_eq!(counts_of(&request).len(), 1);
}

#[test]
fn segment_without_guess_points_gets_an_empty_group() {
    let request = compile(&vec![pose(2, 0.0, 0.0, 0.0), pose(3, 1.0, 0.0, 0.0), pose(4, 2.0, 0.0, 0.0)], &vec![]);
    let mut expected = vec![
        Directive::PoseWpt { index: 0, x: num(0.0), y: num(0.0), heading: num(0.0) },
        Directive::SgmtInitialGuessPoints { from_index: 0, guess_points: vec![] },
        Directive::PoseWpt { index: 1, x: num(1.0), y: num(0.0), heading: num(0.0) },
        Directive::SgmtInitialGuessPoints { from_index: 1, guess_points: vec![] },
        Directive::PoseWpt { index: 2, x: num(2.0), y: num(0.0), heading: num(0.0) },
        Directive::SetControlIntervalCounts { counts: vec![40, 40] },
    ];
    expected.extend(tail_of_request(2));
    assert_eq!(request.directives, expected);
}

#[test]
fn guess_point_before_the_first_actual_point_is_dropped() {
    let g = guess(2, 9.0, 9.0, 9.0, 100);
    let a = pose(3, 0.0, 0.0, 0.0);
    let b = pose(4, 1.0, 0.0, 0.0);
    let request = compile(&vec![g, a, b], &vec![]);
    let mut expected = vec![
        Directive::PoseWpt { index: 0, x: num(0.0), y: num(0.0), heading: num(0.0) },
        Directive::SgmtInitialGuessPoints { from_index: 0, guess_points: vec![] },
        Directive::PoseWpt { index: 1, x: num(1.0), y: num(0.0), heading: num(0.0) },
        Directive::SetControlIntervalCounts { counts: vec![40] },
    ];
    expected.extend(tail_of_request(2));
    assert_eq!(request.directives, expected);
}

#[test]
fn guess_points_after_the_last_actual_point_open_a_segment_of_counts() {
    let a = pose(2, 0.0, 0.0, 0.0);
    let b = pose(3, 1.0, 0.0, 0.0);
    let g = guess(4, 2.0, 0.0, 0.0, 6);
    let request = compile(&vec![a, b, g], &vec![]);
    // the last actual point is not the last stored waypoint: it opens a
    // segment, and the guess point behind it adds to that segment
    assert_eq!(counts_of(&request), vec![40, 46]);
    let groups: Vec<&Directive> = request
        .directives
        .iter()
        .filter(|d| matches!(d, Directive::SgmtInitialGuessPoints { .. }))
        .collect();
    assert_eq!(groups, vec![&Directive::SgmtInitialGuessPoints { from_index: 0, guess_points: vec![] }]);
}

#[test]
fn waypoints_are_declared_by_their_flags() {
    let a = pose(2, 1.0, 2.0, 3.0);
    let mut b = pose(3, 4.0, 5.0, 6.0);
    b.heading_constrained = false;
    let mut c = pose(4, 7.0, 8.0, 9.0);
    c.translation_constrained = false;
    let mut d = pose(5, 1.5, 2.5, 3.5);
    d.translation_constrained = false;
    d.heading_constrained = false;
    let request = compile(&vec![a, b, c, d], &vec![]);
    let declared: Vec<Directive> = request
        .directives
        .iter()
        .filter(|x| {
            matches!(
                x,
                Directive::PoseWpt { .. } | Directive::TranslationWpt { .. } | Directive::EmptyWpt { .. }
            )
        })
        .cloned()
        .collect();
    assert_eq!(
        declared,
        vec![
            Directive::PoseWpt { index: 0, x: num(1.0), y: num(2.0), heading: num(3.0) },
            Directive::TranslationWpt { index: 1, x: num(4.0), y: num(5.0), heading_guess: num(6.0) },
            Directive::EmptyWpt { index: 2, x_guess: num(7.0), y_guess: num(8.0), heading_guess: num(9.0) },
            Directive::EmptyWpt { index: 3, x_guess: num(1.5), y_guess: num(2.5), heading_guess: num(3.5) },
        ]
    );
}

#[test]
fn empty_path_compiles_to_the_bare_request() {
    let request = compile(&vec![], &vec![]);
    let mut expected = vec![Directive::SetControlIntervalCounts { counts: vec![] }];
    expected.extend(tail_of_request(2));
    assert_eq!(request.directives, expected);
}

#[test]
fn single_waypoint_has_no_segment() {
    let request = compile(&vec![pose(2, 0.0, 0.0, 0.0)], &vec![]);
    assert_eq!(counts_of(&request), Vec::<usize>::new());
}

#[test]
fn straight_line_halts_inside_and_takes_the_bearing_of_each_step() {
    let wps = vec![pose(2, 0.0, 0.0, 0.0), pose(3, 1.0, 0.0, 0.0), pose(4, 2.0, 0.0, 0.0)];
    let line = Constraint {
        scope: ConstraintScope(Some(WaypointScope::First), Some(WaypointScope::Last)),
        data: ConstraintData::StraightLine,
    };
    let request = compile(&wps, &vec![line]);
    let part = constraint_part(&request);
    assert_eq!(
        part,
        vec![
            Directive::SgmtLinearVelocityBearing {
                from_index: 0,
                to_index: 1,
                x1: num(0.0),
                y1: num(0.0),
                x2: num(1.0),
                y2: num(0.0),
            },
            Directive::WptLinearVelocityMaxMagnitude { index: 1, magnitude: num(0.0) },
            Directive::SgmtLinearVelocityBearing {
                from_index: 1,
                to_index: 2,
                x1: num(1.0),
                y1: num(0.0),
                x2: num(2.0),
                y2: num(0.0),
            },
        ]
    );
    for d in part.iter() {
        if let Directive::SgmtLinearVelocityBearing { x1, y1, x2, y2, .. } = d {
            let direction = (val(*y2) - val(*y1)).atan2(val(*x2) - val(*x1));
            assert_eq!(direction, 0.0);
        }
    }
}

#[test]
fn straight_line_looks_poses_up_past_guess_points() {
    let wps = vec![
        pose(2, 0.0, 0.0, 0.0),
        guess(3, 5.0, 5.0, 0.0, 1),
        pose(4, 0.0, 3.0, 0.0),
    ];
    let line = Constraint {
        scope: ConstraintScope(Some(WaypointScope::Uuid(4)), Some(WaypointScope::Uuid(2))),
        data: ConstraintData::StraightLine,
    };
    let part = constraint_part(&compile(&wps, &vec![line]));
    assert_eq!(
        part,
        vec![Directive::SgmtLinearVelocityBearing {
            from_index: 0,
            to_index: 1,
            x1: num(0.0),
            y1: num(0.0),
            x2: num(0.0),
            y2: num(3.0),
        }]
    );
}

#[test]
fn straight_line_on_a_single_waypoint_gives_nothing() {
    let wps = vec![pose(2, 0.0, 0.0, 0.0), pose(3, 1.0, 0.0, 0.0)];
    let line = Constraint {
        scope: ConstraintScope(Some(WaypointScope::First), None),
        data: ConstraintData::StraightLine,
    };
    assert_eq!(constraint_part(&compile(&wps, &vec![line])), vec![]);
    let line = Constraint {
        scope: ConstraintScope(Some(WaypointScope::Last), Some(WaypointScope::Last)),
        data: ConstraintData::StraightLine,
    };
    assert_eq!(constraint_part(&compile(&wps, &vec![line])), vec![]);
}

#[test]
fn constraint_without_scope_is_dropped() {
    let wps = vec![pose(2, 0.0, 0.0, 0.0), pose(3, 1.0, 1.0, 0.0)];
    let kinds = vec![
        ConstraintData::WptVelocityDirection { direction: num(1.0) },
        ConstraintData::WptZeroVelocity,
        ConstraintData::StopPoint,
        ConstraintData::MaxVelocity { velocity: num(2.0) },
        ConstraintData::ZeroAngularVelocity,
        ConstraintData::StraightLine,
        ConstraintData::PointAt { x: num(1.0), y: num(2.0), tolerance: num(0.1) },
    ];
    let without = compile(&wps, &vec![]);
    for data in kinds {
        let dropped = Constraint { scope: ConstraintScope::none(), data };
        let result = generate_trajectory(&wps, &vec![dropped], &ChoreoRobotConfig::default(), 2);
        assert_eq!(result, Ok(without.clone()));
    }
    // a scope whose waypoint is not on the path resolves to nothing either
    let stranger = Constraint {
        scope: ConstraintScope::wpt(WaypointScope::Uuid(77)),
        data: ConstraintData::StopPoint,
    };
    assert_eq!(compile(&wps, &vec![stranger]), without);
}

#[test]
fn stop_point_at_the_last_waypoint() {
    let wps = vec![pose(2, 0.0, 0.0, 0.0), pose(3, 1.0, 1.0, 0.0)];
    let stop = Constraint {
        scope: ConstraintScope::wpt(WaypointScope::Last),
        data: ConstraintData::StopPoint,
    };
    let request = compile(&wps, &vec![stop]);
    let mut expected = vec![
        Directive::PoseWpt { index: 0, x: num(0.0), y: num(0.0), heading: num(0.0) },
        Directive::SgmtInitialGuessPoints { from_index: 0, guess_points: vec![] },
        Directive::PoseWpt { index: 1, x: num(1.0), y: num(1.0), heading: num(0.0) },
        Directive::SetControlIntervalCounts { counts: vec![40] },
        Directive::WptLinearVelocityMaxMagnitude { index: 1, magnitude: num(0.0) },
        Directive::WptAngularVelocity { index: 1, angular_velocity: num(0.0) },
    ];
    expected.extend(tail_of_request(2));
    assert_eq!(request.directives, expected);
}

#[test]
fn constraints_on_a_single_waypoint() {
    let wps = vec![pose(2, 0.0, 0.0, 0.0), pose(3, 1.0, 1.0, 0.0), pose(4, 2.0, 2.0, 0.0)];
    let at = ConstraintScope(None, Some(WaypointScope::Uuid(3)));
    let constraints = vec![
        Constraint { scope: at, data: ConstraintData::WptVelocityDirection { direction: num(1.5) } },
        Constraint { scope: at, data: ConstraintData::WptZeroVelocity },
        Constraint { scope: at, data: ConstraintData::MaxVelocity { velocity: num(2.5) } },
        Constraint { scope: at, data: ConstraintData::ZeroAngularVelocity },
        Constraint {
            scope: at,
            data: ConstraintData::PointAt { x: num(4.0), y: num(5.0), tolerance: num(0.25) },
        },
    ];
    assert_eq!(
        constraint_part(&compile(&wps, &constraints)),
        vec![
            Directive::WptLinearVelocityDirection { index: 1, angle: num(1.5) },
            Directive::WptLinearVelocityMaxMagnitude { index: 1, magnitude: num(0.0) },
            Directive::WptLinearVelocityMaxMagnitude { index: 1, magnitude: num(2.5) },
            Directive::WptAngularVelocity { index: 1, angular_velocity: num(0.0) },
            Directive::WptPointAt { index: 1, x: num(4.0), y: num(5.0), tolerance: num(0.25) },
        ]
    );
}

#[test]
fn constraints_on_a_segment() {
    let wps = vec![pose(2, 0.0, 0.0, 0.0), pose(3, 1.0, 1.0, 0.0), pose(4, 2.0, 2.0, 0.0)];
    let over = ConstraintScope(Some(WaypointScope::Last), Some(WaypointScope::Uuid(3)));
    let constraints = vec![
        Constraint { scope: over, data: ConstraintData::WptVelocityDirection { direction: num(1.5) } },
        Constraint { scope: over, data: ConstraintData::WptZeroVelocity },
        Constraint { scope: over, data: ConstraintData::StopPoint },
        Constraint { scope: over, data: ConstraintData::MaxVelocity { velocity: num(2.5) } },
        Constraint { scope: over, data: ConstraintData::ZeroAngularVelocity },
        Constraint {
            scope: over,
            data: ConstraintData::PointAt { x: num(4.0), y: num(5.0), tolerance: num(0.25) },
        },
    ];
    assert_eq!(
        constraint_part(&compile(&wps, &constraints)),
        vec![
            Directive::SgmtLinearVelocityMaxMagnitude { from_index: 1, to_index: 2, magnitude: num(2.5) },
            Directive::SgmtAngularVelocity { from_index: 1, to_index: 2, angular_velocity: num(0.0) },
            Directive::SgmtPointAt {
                from_index: 1,
                to_index: 2,
                x: num(4.0),
                y: num(5.0),
                tolerance: num(0.25),
            },
        ]
    );
}

#[test]
fn constraints_resolve_against_actual_points_only() {
    let wps = vec![
        pose(2, 0.0, 0.0, 0.0),
        guess(3, 0.5, 0.5, 0.0, 1),
        pose(4, 1.0, 1.0, 0.0),
        guess(5, 1.5, 1.5, 0.0, 1),
        pose(6, 2.0, 2.0, 0.0),
    ];
    let constraints = vec![
        Constraint {
            scope: ConstraintScope::wpt(WaypointScope::Uuid(4)),
            data: ConstraintData::WptZeroVelocity,
        },
        Constraint {
            scope: ConstraintScope::wpt(WaypointScope::Last),
            data: ConstraintData::ZeroAngularVelocity,
        },
        // a guess point is no position on the path
        Constraint {
            scope: ConstraintScope::wpt(WaypointScope::Uuid(3)),
            data: ConstraintData::WptZeroVelocity,
        },
    ];
    assert_eq!(
        constraint_part(&compile(&wps, &constraints)),
        vec![
            Directive::WptLinearVelocityMaxMagnitude { index: 1, magnitude: num(0.0) },
            Directive::WptAngularVelocity { index: 2, angular_velocity: num(0.0) },
        ]
    );
}

#[test]
fn request_ends_with_bumpers_drivetrain_and_generate() {
    let mut config = ChoreoRobotConfig::default();
    config.bumper_length = num(0.9);
    config.bumper_width = num(0.8);
    let request = generate_trajectory(&vec![pose(2, 0.0, 0.0, 0.0)], &vec![], &config, 17).unwrap();
    let n = request.directives.len();
    assert_eq!(
        request.directives[n - 3..].to_vec(),
        vec![
            Directive::SetBumpers { length: num(0.9), width: num(0.8) },
            Directive::SetDrivetrain { config },
            Directive::Generate { diagnostics: true, handle: 17 },
        ]
    );
}

#[test]
fn negative_control_interval_count_is_refused() {
    let mut a = pose(2, 0.0, 0.0, 0.0);
    a.control_interval_count = -1;
    let wps = vec![pose(3, 0.0, 0.0, 0.0), a];
    assert!(has_negative_count(&wps));
    assert_eq!(
        generate_trajectory(&wps, &vec![], &ChoreoRobotConfig::default(), 2),
        Err(CompileError::NegativeControlIntervalCount)
    );
    let mut z = pose(4, 0.0, 0.0, 0.0);
    z.control_interval_count = 0;
    let wps = vec![z, pose(5, 1.0, 0.0, 0.0)];
    assert!(!has_negative_count(&wps));
    assert_eq!(counts_of(&compile(&wps, &vec![])), vec![0]);
}

#[test]
fn stored_waypoints_are_arranged_in_path_order() {
    let stored = vec![pose(4, 4.0, 0.0, 0.0), pose(2, 2.0, 0.0, 0.0), pose(3, 3.0, 0.0, 0.0)];
    let arranged = waypoints_in_order(&vec![2, 3, 4], &stored).unwrap();
    assert_eq!(arranged, vec![stored[1], stored[2], stored[0]]);
    assert_eq!(waypoints_in_order(&vec![2, 9], &stored), None);
    assert_eq!(waypoints_in_order(&vec![], &stored), Some(vec![]));
}
