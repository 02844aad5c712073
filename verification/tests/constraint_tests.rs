use choreo_core::constraint::{
    constraints_from_rows, deser_wpt_scope, ser_wpt_scope, Constraint, ConstraintData,
    ConstraintDefs, ConstraintRow, ConstraintScope,
};
use choreo_core::scalar::Scalar;
use choreo_core::waypoint::WaypointScope;

fn number(v: f64) -> Scalar {
    Scalar::from_bits(v.to_bits())
}

fn row(kind: i64, arg0: Option<Scalar>) -> ConstraintRow {
    ConstraintRow {
        constraint_id: 1,
        path: 2,
        start: Some(0),
        end: None,
        kind,
        arg0,
        arg1: None,
        arg2: None,
        arg3: None,
    }
}

#[test]
fn scope_constructors() {
    assert_eq!(
        ConstraintScope::wpt(WaypointScope::First),
        ConstraintScope(Some(WaypointScope::First), None)
    );
    assert_eq!(ConstraintScope::none(), ConstraintScope(None, None));
    assert_eq!(
        ConstraintScope::sgmt(WaypointScope::Uuid(4), WaypointScope::Last),
        ConstraintScope(Some(WaypointScope::Uuid(4)), Some(WaypointScope::Last))
    );
}

#[test]
fn stored_form_of_waypoint_references() {
    assert_eq!(ser_wpt_scope(WaypointScope::First), 0);
    assert_eq!(ser_wpt_scope(WaypointScope::Last), 1);
    assert_eq!(ser_wpt_scope(WaypointScope::Uuid(17)), 17);
    assert_eq!(deser_wpt_scope(0), WaypointScope::First);
    assert_eq!(deser_wpt_scope(1), WaypointScope::Last);
    assert_eq!(deser_wpt_scope(17), WaypointScope::Uuid(17));
    assert_eq!(deser_wpt_scope(-3), WaypointScope::Uuid(-3));
}

#[test]
fn stored_references_survive_a_round_trip() {
    for id in [-5i64, 0, 1, 2, 3, 1000] {
        assert_eq!(ser_wpt_scope(deser_wpt_scope(id)), id);
    }
    for scope in [WaypointScope::First, WaypointScope::Last, WaypointScope::Uuid(2), WaypointScope::Uuid(99)] {
        assert_eq!(deser_wpt_scope(ser_wpt_scope(scope)), scope);
    }
    // the two reserved numbers read back as the ends of the path
    assert_eq!(deser_wpt_scope(ser_wpt_scope(WaypointScope::Uuid(0))), WaypointScope::First);
    assert_eq!(deser_wpt_scope(ser_wpt_scope(WaypointScope::Uuid(1))), WaypointScope::Last);
}

#[test]
fn definitions_table() {
    let defs = ConstraintDefs::new();
    assert_eq!(defs.wpt_zero_velocity.id, 0);
    assert_eq!(defs.wpt_zero_velocity.default_data, ConstraintData::WptZeroVelocity);
    assert_eq!(defs.wpt_velocity_direction.id, 1);
    assert_eq!(
        defs.wpt_velocity_direction.default_data,
        ConstraintData::WptVelocityDirection { direction: number(0.0) }
    );
    assert_eq!(defs.stop_point.id, 2);
    assert_eq!(defs.stop_point.default_data, ConstraintData::StopPoint);
    assert!(defs.stop_point.waypoint && !defs.stop_point.segment);
    assert!(defs.wpt_zero_velocity.waypoint && !defs.wpt_zero_velocity.segment);
    assert!(defs.wpt_velocity_direction.waypoint && !defs.wpt_velocity_direction.segment);
}

#[test]
fn definition_of_each_defined_kind() {
    let defs = ConstraintDefs::new();
    assert_eq!(
        Constraint::definition(ConstraintData::WptVelocityDirection { direction: number(2.0) }),
        defs.wpt_velocity_direction
    );
    assert_eq!(Constraint::definition(ConstraintData::WptZeroVelocity), defs.wpt_zero_velocity);
    assert_eq!(Constraint::definition(ConstraintData::StopPoint), defs.stop_point);
}

#[test]
fn kinds_with_a_definition() {
    assert!(ConstraintData::WptVelocityDirection { direction: number(1.0) }.is_defined());
    assert!(ConstraintData::WptZeroVelocity.is_defined());
    assert!(ConstraintData::StopPoint.is_defined());
    assert!(!ConstraintData::MaxVelocity { velocity: number(1.0) }.is_defined());
    assert!(!ConstraintData::ZeroAngularVelocity.is_defined());
    assert!(!ConstraintData::StraightLine.is_defined());
    assert!(!ConstraintData::PointAt { x: number(1.0), y: number(2.0), tolerance: number(0.1) }
        .is_defined());
}

#[test]
fn new_constraint_has_default_data_and_no_scope() {
    let defs = ConstraintDefs::new();
    let c = Constraint::of(&defs.wpt_velocity_direction);
    assert_eq!(c.scope, ConstraintScope(None, None));
    assert_eq!(c.data, ConstraintData::WptVelocityDirection { direction: number(0.0) });
    let c = Constraint::of(&defs.stop_point);
    assert_eq!(c.data, ConstraintData::StopPoint);
}

#[test]
fn row_with_direction_reads_as_velocity_direction() {
    let r = ConstraintRow {
        constraint_id: 5,
        path: 2,
        start: Some(1),
        end: Some(33),
        kind: 1,
        arg0: Some(number(1.25)),
        arg1: None,
        arg2: None,
        arg3: None,
    };
    assert_eq!(
        r.to_constraint(),
        Ok(Constraint {
            scope: ConstraintScope(Some(WaypointScope::Last), Some(WaypointScope::Uuid(33))),
            data: ConstraintData::WptVelocityDirection { direction: number(1.25) },
        })
    );
}

#[test]
fn row_without_direction_is_refused() {
    assert_eq!(row(1, None).to_constraint(), Err("No Direction".to_string()));
}

#[test]
fn row_of_unknown_kind_is_refused() {
    assert_eq!(row(3, Some(number(1.0))).to_constraint(), Err("unknown type".to_string()));
    assert_eq!(row(-1, None).to_constraint(), Err("unknown type".to_string()));
}

#[test]
fn rows_of_the_plain_kinds() {
    assert_eq!(
        row(0, None).to_constraint(),
        Ok(Constraint {
            scope: ConstraintScope(Some(WaypointScope::First), None),
            data: ConstraintData::WptZeroVelocity,
        })
    );
    // a zero velocity needs no argument and ignores one
    assert_eq!(
        row(0, Some(number(4.0))).to_constraint(),
        Ok(Constraint {
            scope: ConstraintScope(Some(WaypointScope::First), None),
            data: ConstraintData::WptZeroVelocity,
        })
    );
    assert_eq!(
        row(2, None).to_constraint(),
        Ok(Constraint {
            scope: ConstraintScope(Some(WaypointScope::First), None),
            data: ConstraintData::StopPoint,
        })
    );
}

#[test]
fn row_of_a_constraint() {
    let con = Constraint {
        scope: ConstraintScope(Some(WaypointScope::Uuid(8)), Some(WaypointScope::Last)),
        data: ConstraintData::WptVelocityDirection { direction: number(0.5) },
    };
    let r = ConstraintRow::from_constraint(42, &7, &con);
    assert_eq!(
        r,
        ConstraintRow {
            constraint_id: 42,
            path: 7,
            start: Some(8),
            end: Some(1),
            kind: 1,
            arg0: Some(number(0.5)),
            arg1: None,
            arg2: None,
            arg3: None,
        }
    );
    let con = Constraint { scope: ConstraintScope(None, None), data: ConstraintData::WptZeroVelocity };
    let r = ConstraintRow::from_constraint(43, &7, &con);
    assert_eq!(r.kind, 0);
    assert_eq!(r.start, None);
    assert_eq!(r.end, None);
    assert_eq!(r.arg0, None);
}

#[test]
fn kind_tag_of_a_row_is_the_identifier_of_the_definition() {
    let defs = ConstraintDefs::new();
    let scope = ConstraintScope::wpt(WaypointScope::First);
    for definition in [defs.wpt_zero_velocity, defs.wpt_velocity_direction, defs.stop_point] {
        let con = Constraint { scope, data: definition.default_data };
        let r = ConstraintRow::from_constraint(1, &2, &con);
        assert_eq!(r.kind, definition.id);
        assert_eq!(r.to_constraint().map(|c| Constraint::definition(c.data)), Ok(definition));
    }
}

#[test]
fn constraint_made_from_its_definition_survives_a_round_trip() {
    let defs = ConstraintDefs::new();
    for definition in [defs.wpt_zero_velocity, defs.wpt_velocity_direction, defs.stop_point] {
        let con = Constraint::of(&definition);
        let r = ConstraintRow::from_constraint(9, &2, &con);
        assert_eq!(r.to_constraint(), Ok(con));
    }
}

#[test]
fn stored_constraints_survive_a_round_trip() {
    let scopes = [
        ConstraintScope(None, None),
        ConstraintScope(Some(WaypointScope::First), None),
        ConstraintScope(None, Some(WaypointScope::Last)),
        ConstraintScope(Some(WaypointScope::Last), Some(WaypointScope::Uuid(2))),
        ConstraintScope(Some(WaypointScope::Uuid(17)), Some(WaypointScope::First)),
        ConstraintScope(Some(WaypointScope::Uuid(-4)), Some(WaypointScope::Uuid(5))),
    ];
    let kinds = [
        ConstraintData::WptZeroVelocity,
        ConstraintData::WptVelocityDirection { direction: number(0.0) },
        ConstraintData::WptVelocityDirection { direction: number(-2.75) },
        ConstraintData::StopPoint,
    ];
    let mut id = 0;
    for scope in scopes {
        for data in kinds {
            let con = Constraint { scope, data };
            let r = ConstraintRow::from_constraint(id, &3, &con);
            assert_eq!(r.constraint_id, id);
            assert_eq!(r.path, 3);
            assert_eq!(r.to_constraint(), Ok(con));
            id += 1;
        }
    }
}

#[test]
fn reserved_numbers_read_back_as_the_ends_of_the_path() {
    let con = Constraint {
        scope: ConstraintScope(Some(WaypointScope::Uuid(0)), Some(WaypointScope::Uuid(1))),
        data: ConstraintData::StopPoint,
    };
    let r = ConstraintRow::from_constraint(1, &2, &con);
    assert_eq!(
        r.to_constraint(),
        Ok(Constraint {
            scope: ConstraintScope(Some(WaypointScope::First), Some(WaypointScope::Last)),
            data: ConstraintData::StopPoint,
        })
    );
}

#[test]
fn rows_are_read_in_order() {
    let rows = vec![row(2, None), row(1, Some(number(3.0))), row(0, None)];
    let constraints = constraints_from_rows(&rows).unwrap();
    assert_eq!(constraints.len(), 3);
    assert_eq!(constraints[0].data, ConstraintData::StopPoint);
    assert_eq!(constraints[1].data, ConstraintData::WptVelocityDirection { direction: number(3.0) });
    assert_eq!(constraints[2].data, ConstraintData::WptZeroVelocity);
    assert_eq!(constraints_from_rows(&vec![]), Ok(vec![]));
}

#[test]
fn first_refused_row_ends_the_reading() {
    let rows = vec![row(2, None), row(9, None), row(1, None)];
    assert_eq!(constraints_from_rows(&rows), Err("unknown type".to_string()));
    let rows = vec![row(1, None), row(9, None)];
    assert_eq!(constraints_from_rows(&rows), Err("No Direction".to_string()));
}
