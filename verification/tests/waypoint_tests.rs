use choreo_core::scalar::Scalar;
use choreo_core::waypoint::{
    find_first, scope_to_position, scope_to_waypoint_id, PartialWaypoint, Waypoint, WaypointScope,
    DEFAULT_CONTROL_INTERVAL_COUNT, FIRST_WAYPOINT_ID,
};

fn scalar_of(v: f64) -> Scalar {
    Scalar::from_bits(v.to_bits())
}

#[test]
fn scalar_keeps_its_bits() {
    let v = 3.25f64;
    assert_eq!(f64::from_bits(scalar_of(v).to_bits()), v);
    assert_eq!(Scalar::zero().to_bits(), 0.0f64.to_bits());
    assert_eq!(f64::from_bits(Scalar::zero().to_bits()), 0.0);
}

#[test]
fn first_and_last_on_empty_path_resolve_to_nothing() {
    let ids: Vec<i64> = vec![];
    assert_eq!(scope_to_position(&ids, &Some(WaypointScope::First)), None);
    assert_eq!(scope_to_position(&ids, &Some(WaypointScope::Last)), None);
    assert_eq!(scope_to_position(&ids, &Some(WaypointScope::Uuid(5))), None);
    assert_eq!(scope_to_waypoint_id(&ids, &Some(WaypointScope::First)), None);
    assert_eq!(scope_to_waypoint_id(&ids, &Some(WaypointScope::Last)), None);
}

#[test]
fn first_and_last_resolve_to_the_ends() {
    let ids: Vec<i64> = vec![7, 3, 9];
    assert_eq!(scope_to_position(&ids, &Some(WaypointScope::First)), Some(0));
    assert_eq!(scope_to_position(&ids, &Some(WaypointScope::Last)), Some(2));
    assert_eq!(scope_to_waypoint_id(&ids, &Some(WaypointScope::First)), Some(&7));
    assert_eq!(scope_to_waypoint_id(&ids, &Some(WaypointScope::Last)), Some(&9));
}

#[test]
fn identifier_resolves_to_its_position() {
    let ids: Vec<i64> = vec![7, 3, 9];
    assert_eq!(scope_to_position(&ids, &Some(WaypointScope::Uuid(3))), Some(1));
    assert_eq!(scope_to_position(&ids, &Some(WaypointScope::Uuid(9))), Some(2));
    assert_eq!(scope_to_position(&ids, &Some(WaypointScope::Uuid(4))), None);
    assert_eq!(scope_to_waypoint_id(&ids, &Some(WaypointScope::Uuid(3))), Some(&3));
    assert_eq!(scope_to_waypoint_id(&ids, &Some(WaypointScope::Uuid(4))), None);
}

#[test]
fn identifier_resolves_to_its_first_occurrence() {
    let ids: Vec<i64> = vec![5, 8, 5, 8];
    assert_eq!(scope_to_position(&ids, &Some(WaypointScope::Uuid(8))), Some(1));
    assert_eq!(find_first(&ids, 5), Some(0));
    assert_eq!(find_first(&ids, 6), None);
}

#[test]
fn absent_reference_resolves_to_nothing() {
    let ids: Vec<i64> = vec![7, 3, 9];
    assert_eq!(scope_to_position(&ids, &None), None);
    assert_eq!(scope_to_waypoint_id(&ids, &None), None);
}

#[test]
fn new_waypoint_has_the_defaults() {
    let w = Waypoint::new(FIRST_WAYPOINT_ID);
    assert_eq!(w.id, 2);
    assert_eq!(f64::from_bits(w.x.to_bits()), 0.0);
    assert_eq!(f64::from_bits(w.y.to_bits()), 0.0);
    assert_eq!(f64::from_bits(w.heading.to_bits()), 0.0);
    assert!(!w.is_initial_guess);
    assert!(w.translation_constrained);
    assert!(w.heading_constrained);
    assert_eq!(w.control_interval_count, 40);
    assert_eq!(DEFAULT_CONTROL_INTERVAL_COUNT, 40);
}

#[test]
fn empty_update_changes_nothing() {
    let mut w = Waypoint::new(11);
    let before = w;
    let applied = w.apply_some(PartialWaypoint::default());
    assert!(!applied);
    assert_eq!(w, before);
}

#[test]
fn update_overwrites_only_what_it_holds() {
    let mut w = Waypoint::new(11);
    let mut update = PartialWaypoint::default();
    update.y = Some(scalar_of(1.0));
    update.is_initial_guess = Some(true);
    update.control_interval_count = Some(12);
    let applied = w.apply_some(update);
    assert!(applied);
    assert_eq!(w.id, 11);
    assert_eq!(f64::from_bits(w.x.to_bits()), 0.0);
    assert_eq!(f64::from_bits(w.y.to_bits()), 1.0);
    assert_eq!(f64::from_bits(w.heading.to_bits()), 0.0);
    assert!(w.is_initial_guess);
    assert!(w.translation_constrained);
    assert!(w.heading_constrained);
    assert_eq!(w.control_interval_count, 12);
}

#[test]
fn full_update_overwrites_every_field_but_the_identifier() {
    let mut w = Waypoint::new(4);
    let update = PartialWaypoint {
        x: Some(scalar_of(1.5)),
        y: Some(scalar_of(-2.5)),
        heading: Some(scalar_of(0.75)),
        is_initial_guess: Some(true),
        translation_constrained: Some(false),
        heading_constrained: Some(false),
        control_interval_count: Some(3),
    };
    assert!(w.apply_some(update));
    assert_eq!(
        w,
        Waypoint {
            id: 4,
            x: scalar_of(1.5),
            y: scalar_of(-2.5),
            heading: scalar_of(0.75),
            is_initial_guess: true,
            translation_constrained: false,
            heading_constrained: false,
            control_interval_count: 3,
        }
    );
}
