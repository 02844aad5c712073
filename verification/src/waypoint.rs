//! Waypoints, symbolic waypoint references, and their resolution.

use vstd::prelude::*;
use crate::scalar::Scalar;

verus! {

/// Identifier of a stored waypoint.
pub type WaypointID = i64;

/// A symbolic reference to one waypoint of a path.
#[derive(Clone, Copy, Debug, PartialEq, Eq, Structural)]
pub enum WaypointScope {
    /// The waypoint with this identifier.
    Uuid(WaypointID),
    /// The first waypoint of the path.
    First,
    /// The last waypoint of the path.
    Last,
}

/// `i` is the first index at which `id` occurs in `ids`.
pub open spec fn is_first_position(ids: Seq<WaypointID>, id: WaypointID, i: int) -> bool {
    &&& 0 <= i < ids.len()
    &&& ids[i] == id
    &&& forall|j: int| 0 <= j < i ==> ids[j] != id
}

/// The first index at which `id` occurs in `ids`, if it occurs at all.
pub open spec fn first_position(ids: Seq<WaypointID>, id: WaypointID) -> Option<int> {
    if exists|i: int| is_first_position(ids, id, i) {
        Some(choose|i: int| is_first_position(ids, id, i))
    } else {
        None
    }
}

/// A first position, once exhibited, is the one `first_position` names.
pub proof fn lemma_first_position_found(ids: Seq<WaypointID>, id: WaypointID, i: int)
    requires
        is_first_position(ids, id, i),
    ensures
        first_position(ids, id) == Some(i),
{
    let c = choose|k: int| is_first_position(ids, id, k);
    assert(is_first_position(ids, id, c));
    if c < i {
        assert(ids[c] != id);
    } else if i < c {
        assert(ids[i] != id);
    }
}

/// An identifier that occurs nowhere has no first position.
pub proof fn lemma_first_position_absent(ids: Seq<WaypointID>, id: WaypointID)
    requires
        forall|j: int| 0 <= j < ids.len() ==> ids[j] != id,
    ensures
        first_position(ids, id) is None,
{
}

/// The position on the path that a reference denotes: `First` is index 0 and
/// `Last` the final index of a path that has waypoints, an identifier is the
/// first index that holds it, and an absent reference denotes nothing.
pub open spec fn spec_scope_to_position(ids: Seq<WaypointID>, scope: Option<WaypointScope>) -> Option<int> {
    match scope {
        None => None,
        Some(WaypointScope::Uuid(id)) => first_position(ids, id),
        Some(WaypointScope::First) => if ids.len() > 0 { Some(0) } else { None },
        Some(WaypointScope::Last) => if ids.len() > 0 { Some(ids.len() - 1) } else { None },
    }
}

/// The identifier of the waypoint that a reference denotes.
pub open spec fn spec_scope_to_waypoint_id(ids: Seq<WaypointID>, scope: Option<WaypointScope>) -> Option<WaypointID> {
    match spec_scope_to_position(ids, scope) {
        Some(i) => Some(ids[i]),
        None => None,
    }
}

/// Index of the first occurrence of `id` in `ids`.
pub fn find_first(ids: &Vec<WaypointID>, id: WaypointID) -> (r: Option<usize>)
    ensures
        match r {
            Some(i) => first_position(ids@, id) == Some(i as int) && i < ids.len(),
            None => first_position(ids@, id) is None,
        },
{
    let mut i: usize = 0;
    while i < ids.len()
        invariant
            i <= ids.len(),
            forall|j: int| 0 <= j < i ==> ids@[j] != id,
        decreases ids.len() - i,
    {
        if ids[i] == id {
            proof {
                lemma_first_position_found(ids@, id, i as int);
            }
            return Some(i);
        }
        i += 1;
    }
    proof {
        lemma_first_position_absent(ids@, id);
    }
    None
}

/// Resolves a symbolic reference to the identifier it denotes on a path.
pub fn scope_to_waypoint_id<'a>(
    waypoints: &'a Vec<WaypointID>,
    scope: &Option<WaypointScope>,
) -> (r: Option<&'a WaypointID>)
    ensures
        match r {
            Some(id) => spec_scope_to_waypoint_id(waypoints@, *scope) == Some(*id),
            None => spec_scope_to_waypoint_id(waypoints@, *scope) is None,
        },
{
    match scope {
        Some(WaypointScope::Uuid(id)) => {
            match find_first(waypoints, *id) {
                Some(i) => Some(&waypoints[i]),
                None => None,
            }
        },
        Some(WaypointScope::First) => {
            if waypoints.len() > 0 {
                Some(&waypoints[0])
            } else {
                None
            }
        },
        Some(WaypointScope::Last) => {
            if waypoints.len() > 0 {
                Some(&waypoints[waypoints.len() - 1])
            } else {
                None
            }
        },
        None => None,
    }
}

/// Resolves a symbolic reference to a position on a path.
pub fn scope_to_position(
    waypoints: &Vec<WaypointID>,
    scope: &Option<WaypointScope>,
) -> (r: Option<usize>)
    ensures
        match r {
            Some(i) => spec_scope_to_position(waypoints@, *scope) == Some(i as int) && i
                < waypoints.len(),
            None => spec_scope_to_position(waypoints@, *scope) is None,
        },
{
    match scope {
        Some(WaypointScope::Uuid(id)) => find_first(waypoints, *id),
        Some(WaypointScope::First) => {
            if waypoints.len() > 0 {
                Some(0)
            } else {
                None
            }
        },
        Some(WaypointScope::Last) => {
            if waypoints.len() > 0 {
                Some(waypoints.len() - 1)
            } else {
                None
            }
        },
        None => None,
    }
}

/// A stored waypoint: a planar pose, the flags that say how much of the pose
/// the optimizer must honour, and the number of control intervals given to
/// the segment that follows it.
#[derive(Clone, Copy, Debug, PartialEq, Eq, Structural)]
pub struct Waypoint {
    pub id: WaypointID,
    pub x: Scalar,
    pub y: Scalar,
    pub heading: Scalar,
    pub is_initial_guess: bool,
    pub translation_constrained: bool,
    pub heading_constrained: bool,
    pub control_interval_count: i32,
}

/// The smallest identifier a waypoint may carry: 0 and 1 are the stored forms
/// of "first waypoint" and "last waypoint".
pub const FIRST_WAYPOINT_ID: WaypointID = 2;

/// The control interval count of a freshly created waypoint.
pub const DEFAULT_CONTROL_INTERVAL_COUNT: i32 = 40;

impl Waypoint {
    /// A waypoint at the origin, fully constrained, that is no initial guess.
    pub fn new(id: WaypointID) -> (w: Waypoint)
        ensures
            w == (Waypoint {
                id,
                x: Scalar::zero(),
                y: Scalar::zero(),
                heading: Scalar::zero(),
                is_initial_guess: false,
                translation_constrained: true,
                heading_constrained: true,
                control_interval_count: DEFAULT_CONTROL_INTERVAL_COUNT,
            }),
    {
        Waypoint {
            id,
            x: Scalar::zero(),
            y: Scalar::zero(),
            heading: Scalar::zero(),
            is_initial_guess: false,
            translation_constrained: true,
            heading_constrained: true,
            control_interval_count: DEFAULT_CONTROL_INTERVAL_COUNT,
        }
    }

    /// The waypoint that results from overwriting with `partial`: a field
    /// that `partial` holds replaces the stored one, an absent field keeps
    /// it, and the identifier never changes.
    pub open spec fn updated(self, partial: PartialWaypoint) -> Waypoint {
        Waypoint {
            id: self.id,
            x: partial.x.unwrap_or(self.x),
            y: partial.y.unwrap_or(self.y),
            heading: partial.heading.unwrap_or(self.heading),
            is_initial_guess: partial.is_initial_guess.unwrap_or(self.is_initial_guess),
            translation_constrained: partial.translation_constrained.unwrap_or(
                self.translation_constrained,
            ),
            heading_constrained: partial.heading_constrained.unwrap_or(self.heading_constrained),
            control_interval_count: partial.control_interval_count.unwrap_or(
                self.control_interval_count,
            ),
        }
    }

    /// Overwrites the fields that `partial` holds; tells whether it held any.
    pub fn apply_some(&mut self, partial: PartialWaypoint) -> (applied: bool)
        ensures
            *final(self) == old(self).updated(partial),
            applied == !partial.is_empty(),
    {
        let will_apply_some = partial.x.is_some() || partial.y.is_some()
            || partial.heading.is_some() || partial.is_initial_guess.is_some()
            || partial.translation_constrained.is_some() || partial.heading_constrained.is_some()
            || partial.control_interval_count.is_some();
        if let Some(x) = partial.x {
            self.x = x;
        }
        if let Some(y) = partial.y {
            self.y = y;
        }
        if let Some(heading) = partial.heading {
            self.heading = heading;
        }
        if let Some(is_initial_guess) = partial.is_initial_guess {
            self.is_initial_guess = is_initial_guess;
        }
        if let Some(translation_constrained) = partial.translation_constrained {
            self.translation_constrained = translation_constrained;
        }
        if let Some(heading_constrained) = partial.heading_constrained {
            self.heading_constrained = heading_constrained;
        }
        if let Some(control_interval_count) = partial.control_interval_count {
            self.control_interval_count = control_interval_count;
        }
        will_apply_some
    }
}

/// An update to a waypoint in which every field is optional.  The identifier
/// is not part of it.
#[derive(Clone, Copy, Debug, PartialEq, Eq, Structural)]
pub struct PartialWaypoint {
    pub x: Option<Scalar>,
    pub y: Option<Scalar>,
    pub heading: Option<Scalar>,
    pub is_initial_guess: Option<bool>,
    pub translation_constrained: Option<bool>,
    pub heading_constrained: Option<bool>,
    pub control_interval_count: Option<i32>,
}

impl PartialWaypoint {
    /// No field is present.
    pub open spec fn is_empty(self) -> bool {
        &&& self.x is None
        &&& self.y is None
        &&& self.heading is None
        &&& self.is_initial_guess is None
        &&& self.translation_constrained is None
        &&& self.heading_constrained is None
        &&& self.control_interval_count is None
    }
}

impl Default for PartialWaypoint {
    /// The update that changes nothing.
    fn default() -> (p: PartialWaypoint)
        ensures
            p.is_empty(),
    {
        PartialWaypoint {
            x: None,
            y: None,
            heading: None,
            is_initial_guess: None,
            translation_constrained: None,
            heading_constrained: None,
            control_interval_count: None,
        }
    }
}

} // verus!
