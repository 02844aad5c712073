//! Constraints, their scopes, and their stored row form.

use vstd::prelude::*;
use crate::scalar::Scalar;
use crate::waypoint::{WaypointID, WaypointScope};

verus! {

/// Where a constraint applies: up to two symbolic waypoint references.  One
/// reference denotes a single waypoint, two denote the segment between them,
/// none leaves the constraint unresolved.
#[derive(Clone, Copy, Debug, PartialEq, Eq, Structural)]
pub struct ConstraintScope(pub Option<WaypointScope>, pub Option<WaypointScope>);

impl ConstraintScope {
    /// The scope of a constraint on the single waypoint `point`.
    pub fn wpt(point: WaypointScope) -> (s: Self)
        ensures
            s == ConstraintScope(Some(point), None),
    {
        ConstraintScope(Some(point), None)
    }

    /// The scope that refers to nothing.
    pub fn none() -> (s: Self)
        ensures
            s == ConstraintScope(None, None),
    {
        ConstraintScope(None, None)
    }

    /// The scope of a constraint on the segment between `pt1` and `pt2`.
    pub fn sgmt(pt1: WaypointScope, pt2: WaypointScope) -> (s: Self)
        ensures
            s == ConstraintScope(Some(pt1), Some(pt2)),
    {
        ConstraintScope(Some(pt1), Some(pt2))
    }
}

/// What a constraint demands, with the parameters of each kind.
#[derive(Clone, Copy, Debug, PartialEq, Eq, Structural)]
pub enum ConstraintData {
    /// The linear velocity points in `direction`.
    WptVelocityDirection { direction: Scalar },
    /// The linear velocity is zero.
    WptZeroVelocity,
    /// Linear and angular velocity are both zero.
    StopPoint,
    /// The linear speed is at most `velocity`.
    MaxVelocity { velocity: Scalar },
    /// The angular velocity is zero.
    ZeroAngularVelocity,
    /// The robot moves on the straight line through the waypoints of a segment.
    StraightLine,
    /// The robot faces the point `(x, y)` to within `tolerance`.
    PointAt { x: Scalar, y: Scalar, tolerance: Scalar },
}

impl ConstraintData {
    /// The kinds that have a definition, and with it a stored form.
    pub open spec fn spec_is_defined(self) -> bool {
        self is WptVelocityDirection || self is WptZeroVelocity || self is StopPoint
    }

    /// Tells whether this kind has a definition.
    #[verifier::when_used_as_spec(spec_is_defined)]
    pub fn is_defined(self) -> (b: bool)
        ensures
            b == self.spec_is_defined(),
    {
        match self {
            ConstraintData::WptVelocityDirection { .. } => true,
            ConstraintData::WptZeroVelocity => true,
            ConstraintData::StopPoint => true,
            _ => false,
        }
    }
}

/// The description of one kind of constraint: its stored tag, the data a new
/// constraint of that kind starts with, and the scope shapes it is meant for.
#[derive(Clone, Copy, Debug, PartialEq, Eq, Structural)]
pub struct ConstraintDefinition {
    pub id: i64,
    pub default_data: ConstraintData,
    pub waypoint: bool,
    pub segment: bool,
}

/// The definitions of the kinds of constraint that can be created and stored.
#[derive(Clone, Copy, Debug, PartialEq, Eq, Structural)]
pub struct ConstraintDefs {
    pub wpt_zero_velocity: ConstraintDefinition,
    pub wpt_velocity_direction: ConstraintDefinition,
    pub stop_point: ConstraintDefinition,
}

impl ConstraintDefs {
    /// The table of definitions.
    pub open spec fn spec_new() -> ConstraintDefs {
        ConstraintDefs {
            wpt_zero_velocity: ConstraintDefinition {
                id: 0,
                default_data: ConstraintData::WptZeroVelocity,
                waypoint: true,
                segment: false,
            },
            wpt_velocity_direction: ConstraintDefinition {
                id: 1,
                default_data: ConstraintData::WptVelocityDirection { direction: Scalar::zero() },
                waypoint: true,
                segment: false,
            },
            stop_point: ConstraintDefinition {
                id: 2,
                default_data: ConstraintData::StopPoint,
                waypoint: true,
                segment: false,
            },
        }
    }

    /// The table of definitions.
    #[verifier::when_used_as_spec(spec_new)]
    pub fn new() -> (defs: ConstraintDefs)
        ensures
            defs == ConstraintDefs::spec_new(),
    {
        ConstraintDefs {
            wpt_zero_velocity: ConstraintDefinition {
                id: 0,
                default_data: ConstraintData::WptZeroVelocity,
                waypoint: true,
                segment: false,
            },
            wpt_velocity_direction: ConstraintDefinition {
                id: 1,
                default_data: ConstraintData::WptVelocityDirection { direction: Scalar::zero() },
                waypoint: true,
                segment: false,
            },
            stop_point: ConstraintDefinition {
                id: 2,
                default_data: ConstraintData::StopPoint,
                waypoint: true,
                segment: false,
            },
        }
    }
}

/// A constraint on a path: a scope and what is demanded there.
#[derive(Clone, Copy, Debug, PartialEq, Eq, Structural)]
pub struct Constraint {
    pub scope: ConstraintScope,
    pub data: ConstraintData,
}

impl Constraint {
    /// A new constraint of the kind that `definition` describes: it carries
    /// the kind's default data and is not yet attached to any waypoint.
    pub fn of(definition: &ConstraintDefinition) -> (c: Self)
        ensures
            c == (Constraint { scope: ConstraintScope(None, None), data: definition.default_data }),
    {
        Constraint { scope: ConstraintScope::none(), data: definition.default_data }
    }

    /// The definition of the kind that `data` belongs to.  It says nothing
    /// of a kind that has no definition.
    pub open spec fn spec_definition(data: ConstraintData) -> ConstraintDefinition
        recommends
            data.is_defined(),
    {
        match data {
            ConstraintData::WptVelocityDirection { .. } => ConstraintDefs::new().wpt_velocity_direction,
            ConstraintData::WptZeroVelocity => ConstraintDefs::new().wpt_zero_velocity,
            ConstraintData::StopPoint => ConstraintDefs::new().stop_point,
            _ => arbitrary(),
        }
    }

    /// The definition of the kind that `data` belongs to.  Only the kinds
    /// that can be created from a definition have one.
    pub fn definition(data: ConstraintData) -> (d: ConstraintDefinition)
        requires
            data.is_defined(),
        ensures
            d == Self::spec_definition(data),
    {
        let defs = ConstraintDefs::new();
        match data {
            ConstraintData::WptVelocityDirection { .. } => defs.wpt_velocity_direction,
            ConstraintData::WptZeroVelocity => defs.wpt_zero_velocity,
            // of the kinds with a definition only the stop point is left
            _ => defs.stop_point,
        }
    }
}

/// The stored form of a waypoint reference: 0 is the first waypoint, 1 the
/// last, any other number the waypoint with that identifier.
pub open spec fn spec_deser_wpt_scope(wpt_id: i64) -> WaypointScope {
    if wpt_id == 0 {
        WaypointScope::First
    } else if wpt_id == 1 {
        WaypointScope::Last
    } else {
        WaypointScope::Uuid(wpt_id)
    }
}

/// The number under which a waypoint reference is stored.
pub open spec fn spec_ser_wpt_scope(scope: WaypointScope) -> i64 {
    match scope {
        WaypointScope::First => 0,
        WaypointScope::Last => 1,
        WaypointScope::Uuid(wpt_id) => wpt_id,
    }
}

/// Reads a waypoint reference from its stored form.
#[verifier::when_used_as_spec(spec_deser_wpt_scope)]
pub fn deser_wpt_scope(wpt_id: i64) -> (scope: WaypointScope)
    ensures
        scope == spec_deser_wpt_scope(wpt_id),
{
    if wpt_id == 0 {
        WaypointScope::First
    } else if wpt_id == 1 {
        WaypointScope::Last
    } else {
        WaypointScope::Uuid(wpt_id)
    }
}

/// Gives the stored form of a waypoint reference.
#[verifier::when_used_as_spec(spec_ser_wpt_scope)]
pub fn ser_wpt_scope(scope: WaypointScope) -> (wpt_id: i64)
    ensures
        wpt_id == spec_ser_wpt_scope(scope),
{
    match scope {
        WaypointScope::First => 0,
        WaypointScope::Last => 1,
        WaypointScope::Uuid(wpt_id) => wpt_id,
    }
}

/// A reference survives being stored and read back unless it names a
/// waypoint by one of the two reserved numbers.
pub open spec fn scope_is_storable(scope: WaypointScope) -> bool {
    scope != WaypointScope::Uuid(0) && scope != WaypointScope::Uuid(1)
}

/// Storing what was read from a stored form gives that form back.
pub proof fn lemma_ser_after_deser(wpt_id: i64)
    ensures
        ser_wpt_scope(deser_wpt_scope(wpt_id)) == wpt_id,
{
}

/// Reading back a stored reference gives the reference, provided it does not
/// name a waypoint by a reserved number.
pub proof fn lemma_deser_after_ser(scope: WaypointScope)
    requires
        scope_is_storable(scope),
    ensures
        deser_wpt_scope(ser_wpt_scope(scope)) == scope,
{
}

/// One row of the constraint table.
#[derive(Clone, Copy, Debug, PartialEq, Eq, Structural)]
pub struct ConstraintRow {
    pub constraint_id: i64,
    pub path: i64,
    pub start: Option<i64>,
    pub end: Option<i64>,
    pub kind: i64,
    pub arg0: Option<Scalar>,
    pub arg1: Option<Scalar>,
    pub arg2: Option<Scalar>,
    pub arg3: Option<Scalar>,
}

/// The stored form of an optional waypoint reference.
pub open spec fn ser_endpoint(endpoint: Option<WaypointScope>) -> Option<i64> {
    match endpoint {
        Some(scope) => Some(ser_wpt_scope(scope)),
        None => None,
    }
}

/// The optional waypoint reference that a stored column holds.
pub open spec fn deser_endpoint(column: Option<i64>) -> Option<WaypointScope> {
    match column {
        Some(wpt_id) => Some(deser_wpt_scope(wpt_id)),
        None => None,
    }
}

impl ConstraintRow {
    /// The scope that the row's two endpoint columns hold.
    pub open spec fn scope(self) -> ConstraintScope {
        ConstraintScope(deser_endpoint(self.start), deser_endpoint(self.end))
    }

    /// The row is of the kind that needs a direction and holds none.
    pub open spec fn lacks_direction(self) -> bool {
        self.kind == ConstraintDefs::new().wpt_velocity_direction.id && self.arg0 is None
    }

    /// The row's kind tag is the tag of no definition.
    pub open spec fn has_unknown_kind(self) -> bool {
        &&& self.kind != ConstraintDefs::new().wpt_zero_velocity.id
        &&& self.kind != ConstraintDefs::new().wpt_velocity_direction.id
        &&& self.kind != ConstraintDefs::new().stop_point.id
    }

    /// The constraint that the row holds, if it holds one.  The kind tag of
    /// the row is the identifier of the definition of its kind.
    pub open spec fn spec_to_constraint(self) -> Option<Constraint> {
        if self.kind == ConstraintDefs::new().wpt_zero_velocity.id {
            Some(Constraint { scope: self.scope(), data: ConstraintData::WptZeroVelocity })
        } else if self.kind == ConstraintDefs::new().wpt_velocity_direction.id {
            match self.arg0 {
                Some(direction) => Some(
                    Constraint {
                        scope: self.scope(),
                        data: ConstraintData::WptVelocityDirection { direction },
                    },
                ),
                None => None,
            }
        } else if self.kind == ConstraintDefs::new().stop_point.id {
            Some(Constraint { scope: self.scope(), data: ConstraintData::StopPoint })
        } else {
            None
        }
    }

    /// The words with which a row that holds no constraint is refused.
    pub open spec fn refusal(self) -> Seq<char> {
        if self.lacks_direction() {
            "No Direction"@
        } else {
            "unknown type"@
        }
    }

    /// Reads the constraint that the row holds.  A row of the direction kind
    /// without a direction is refused with "No Direction", a row with an
    /// unknown kind tag with "unknown type".
    pub fn to_constraint(&self) -> (r: Result<Constraint, String>)
        ensures
            match r {
                Ok(c) => self.spec_to_constraint() == Some(c),
                Err(e) => {
                    &&& self.spec_to_constraint() is None
                    &&& self.lacks_direction() || self.has_unknown_kind()
                    &&& e@ == self.refusal()
                },
            },
    {
        let defs = ConstraintDefs::new();
        let start = match self.start {
            Some(wpt_id) => Some(deser_wpt_scope(wpt_id)),
            None => None,
        };
        let end = match self.end {
            Some(wpt_id) => Some(deser_wpt_scope(wpt_id)),
            None => None,
        };
        let scope = ConstraintScope(start, end);
        let data = if self.kind == defs.wpt_zero_velocity.id {
            ConstraintData::WptZeroVelocity
        } else if self.kind == defs.wpt_velocity_direction.id {
            match self.arg0 {
                Some(direction) => ConstraintData::WptVelocityDirection { direction },
                None => {
                    return Err("No Direction".to_owned());
                },
            }
        } else if self.kind == defs.stop_point.id {
            ConstraintData::StopPoint
        } else {
            return Err("unknown type".to_owned());
        };
        Ok(Constraint { scope, data })
    }

    /// The row under which a constraint is stored: its kind tag is the
    /// identifier of the definition of its kind, and its argument columns
    /// hold the numbers of its data.
    pub open spec fn spec_from_constraint(
        constraint_id: i64,
        path_id: i64,
        con: Constraint,
    ) -> ConstraintRow
        recommends
            con.data.is_defined(),
    {
        ConstraintRow {
            constraint_id,
            path: path_id,
            start: ser_endpoint(con.scope.0),
            end: ser_endpoint(con.scope.1),
            kind: Constraint::spec_definition(con.data).id,
            arg0: match con.data {
                ConstraintData::WptVelocityDirection { direction } => Some(direction),
                ConstraintData::MaxVelocity { velocity } => Some(velocity),
                ConstraintData::PointAt { x, .. } => Some(x),
                _ => None,
            },
            arg1: match con.data {
                ConstraintData::PointAt { y, .. } => Some(y),
                _ => None,
            },
            arg2: match con.data {
                ConstraintData::PointAt { tolerance, .. } => Some(tolerance),
                _ => None,
            },
            arg3: None,
        }
    }

    /// Builds the row under which `con` is stored for the path `path_id`,
    /// with the identifier that the store assigned to it.
    pub fn from_constraint(constraint_id: i64, path_id: &i64, con: &Constraint) -> (row: ConstraintRow)
        requires
            con.data.is_defined(),
        ensures
            row == Self::spec_from_constraint(constraint_id, *path_id, *con),
    {
        let start = match con.scope.0 {
            Some(scope) => Some(ser_wpt_scope(scope)),
            None => None,
        };
        let end = match con.scope.1 {
            Some(scope) => Some(ser_wpt_scope(scope)),
            None => None,
        };
        let kind = Constraint::definition(con.data).id;
        let mut arg0 = None;
        let mut arg1 = None;
        let mut arg2 = None;
        let arg3 = None;
        match con.data {
            ConstraintData::WptVelocityDirection { direction } => {
                arg0 = Some(direction);
            },
            ConstraintData::MaxVelocity { velocity } => {
                arg0 = Some(velocity);
            },
            ConstraintData::PointAt { x, y, tolerance } => {
                arg0 = Some(x);
                arg1 = Some(y);
                arg2 = Some(tolerance);
            },
            _ => {},
        }
        ConstraintRow { constraint_id, path: *path_id, start, end, kind, arg0, arg1, arg2, arg3 }
    }
}

/// A constraint of a kind with a definition, whose scope names no waypoint
/// by a reserved number, is read back unchanged from the row it was stored
/// under.
pub proof fn lemma_row_round_trip(constraint_id: i64, path_id: i64, con: Constraint)
    requires
        con.data.is_defined(),
        con.scope.0 matches Some(scope) ==> scope_is_storable(scope),
        con.scope.1 matches Some(scope) ==> scope_is_storable(scope),
    ensures
        ConstraintRow::spec_from_constraint(constraint_id, path_id, con).spec_to_constraint()
            == Some(con),
{
    let row = ConstraintRow::spec_from_constraint(constraint_id, path_id, con);
    assert(row.scope() == con.scope);
}

/// The definitions carry three different kind tags.
pub proof fn lemma_kind_tags_are_distinct()
    ensures
        ConstraintDefs::new().wpt_zero_velocity.id != ConstraintDefs::new().wpt_velocity_direction.id,
        ConstraintDefs::new().wpt_zero_velocity.id != ConstraintDefs::new().stop_point.id,
        ConstraintDefs::new().wpt_velocity_direction.id != ConstraintDefs::new().stop_point.id,
{
}

/// The constraints that `rows` hold, in order.
pub open spec fn constraints_of(rows: Seq<ConstraintRow>) -> Seq<Constraint> {
    Seq::new(rows.len(), |i: int| rows[i].spec_to_constraint().unwrap())
}

/// `i` is the first row of `rows` that holds no constraint.
pub open spec fn is_first_refused(rows: Seq<ConstraintRow>, i: int) -> bool {
    &&& 0 <= i < rows.len()
    &&& rows[i].spec_to_constraint() is None
    &&& forall|j: int| 0 <= j < i ==> rows[j].spec_to_constraint() is Some
}

/// Reads the constraints of a path from its rows, in order.  The first row
/// that holds no constraint ends the reading with that row's refusal.
pub fn constraints_from_rows(rows: &Vec<ConstraintRow>) -> (r: Result<Vec<Constraint>, String>)
    ensures
        match r {
            Ok(constraints) => {
                &&& forall|i: int| 0 <= i < rows.len() ==> rows[i].spec_to_constraint() is Some
                &&& constraints@ == constraints_of(rows@)
            },
            Err(e) => exists|i: int| is_first_refused(rows@, i) && e@ == rows[i].refusal(),
        },
{
    let mut result: Vec<Constraint> = Vec::new();
    let mut i: usize = 0;
    while i < rows.len()
        invariant
            i <= rows.len(),
            result.len() == i,
            forall|j: int| 0 <= j < i ==> rows[j].spec_to_constraint() == Some(result[j]),
        decreases rows.len() - i,
    {
        match rows[i].to_constraint() {
            Ok(c) => {
                result.push(c);
            },
            Err(e) => {
                assert(is_first_refused(rows@, i as int));
                return Err(e);
            },
        }
        i += 1;
    }
    assert(result@ =~= constraints_of(rows@));
    Ok(result)
}

} // verus!
