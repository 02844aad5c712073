//! Compiling a path into an optimizer request.
//!
//! The waypoints of a path are taken in stored order.  A waypoint that is an
//! initial guess only seeds the solution of the segment it lies in; every
//! other waypoint, an actual point, is declared to the path builder under the
//! next free index.  Constraints are resolved against the actual points and
//! turned into directives on waypoints and segments.

use vstd::prelude::*;
use crate::constraint::{Constraint, ConstraintData, ConstraintScope};
use crate::request::{Directive, DirectiveView, GuessPoint, TrajectoryRequest};
use crate::robotconfig::ChoreoRobotConfig;
use crate::scalar::Scalar;
use crate::waypoint::{
    first_position, lemma_first_position_absent, lemma_first_position_found, scope_to_position,
    spec_scope_to_position, Waypoint, WaypointID, WaypointScope,
};

verus! {

/// Why a path could not be compiled.
#[derive(Clone, Copy, Debug, PartialEq, Eq, Structural)]
pub enum CompileError {
    /// A waypoint carries a negative control interval count.
    NegativeControlIntervalCount,
    /// The control intervals of one segment do not fit the machine's word.
    ControlIntervalOverflow,
}

/// The positions on the path that the scope of a constraint resolved to.
#[derive(Clone, Copy, Debug, PartialEq, Eq, Structural)]
pub enum ResolvedScope {
    /// The single waypoint `index`.
    Waypoint { index: usize },
    /// The segment from waypoint `from_index` to waypoint `to_index`, with
    /// `from_index <= to_index`.
    Segment { from_index: usize, to_index: usize },
}

/// The pairing rule for the two endpoints of a scope: one resolved endpoint
/// gives a single waypoint, two give the segment between them in ascending
/// order, none gives nothing.
pub open spec fn spec_resolve_scope(actual: Seq<WaypointID>, scope: ConstraintScope) -> Option<
    ResolvedScope,
> {
    match (spec_scope_to_position(actual, scope.0), spec_scope_to_position(actual, scope.1)) {
        (None, None) => None,
        (Some(a), None) => Some(ResolvedScope::Waypoint { index: a as usize }),
        (None, Some(b)) => Some(ResolvedScope::Waypoint { index: b as usize }),
        (Some(a), Some(b)) => if a < b {
            Some(ResolvedScope::Segment { from_index: a as usize, to_index: b as usize })
        } else {
            Some(ResolvedScope::Segment { from_index: b as usize, to_index: a as usize })
        },
    }
}

/// Resolves the scope of a constraint against the actual points of a path.
pub fn resolve_scope(actual: &Vec<WaypointID>, scope: &ConstraintScope) -> (r: Option<
    ResolvedScope,
>)
    ensures
        r == spec_resolve_scope(actual@, *scope),
        match r {
            Some(ResolvedScope::Waypoint { index }) => index < actual.len(),
            Some(ResolvedScope::Segment { from_index, to_index }) => from_index <= to_index
                < actual.len(),
            None => true,
        },
{
    let first = scope_to_position(actual, &scope.0);
    let second = scope_to_position(actual, &scope.1);
    match (first, second) {
        (None, None) => None,
        (Some(a), None) => Some(ResolvedScope::Waypoint { index: a }),
        (None, Some(b)) => Some(ResolvedScope::Waypoint { index: b }),
        (Some(a), Some(b)) => {
            if a < b {
                Some(ResolvedScope::Segment { from_index: a, to_index: b })
            } else {
                Some(ResolvedScope::Segment { from_index: b, to_index: a })
            }
        },
    }
}

/// The identifiers of the waypoints of a path, in stored order.
pub open spec fn ids_of(wps: Seq<Waypoint>) -> Seq<WaypointID> {
    Seq::new(wps.len(), |i: int| wps[i].id)
}

/// The number of actual points among `wps`.
pub open spec fn actual_count(wps: Seq<Waypoint>) -> nat
    decreases wps.len(),
{
    if wps.len() == 0 {
        0
    } else if wps.last().is_initial_guess {
        actual_count(wps.drop_last())
    } else {
        actual_count(wps.drop_last()) + 1
    }
}

/// The identifiers of the actual points among `wps`, in stored order.
pub open spec fn actual_points(wps: Seq<Waypoint>) -> Seq<WaypointID>
    decreases wps.len(),
{
    if wps.len() == 0 {
        Seq::empty()
    } else if wps.last().is_initial_guess {
        actual_points(wps.drop_last())
    } else {
        actual_points(wps.drop_last()).push(wps.last().id)
    }
}

/// The pose of a waypoint as a guess point.
pub open spec fn guess_point_of(w: Waypoint) -> GuessPoint {
    GuessPoint { x: w.x, y: w.y, heading: w.heading }
}

/// The guess points that follow the last actual point of `wps`, in order; all
/// of `wps` as guess points if it holds no actual point.
pub open spec fn pending_guess_points(wps: Seq<Waypoint>) -> Seq<GuessPoint>
    decreases wps.len(),
{
    if wps.len() == 0 {
        Seq::empty()
    } else if wps.last().is_initial_guess {
        pending_guess_points(wps.drop_last()).push(guess_point_of(wps.last()))
    } else {
        Seq::empty()
    }
}

/// The directive that declares the actual point `w` under `index`: a pose
/// where heading and translation are both constrained, a translation where
/// only the translation is, an empty waypoint otherwise.
pub open spec fn declaration(index: usize, w: Waypoint) -> DirectiveView {
    if w.heading_constrained && w.translation_constrained {
        DirectiveView::PoseWpt { index, x: w.x, y: w.y, heading: w.heading }
    } else if w.translation_constrained {
        DirectiveView::TranslationWpt { index, x: w.x, y: w.y, heading_guess: w.heading }
    } else {
        DirectiveView::EmptyWpt { index, x_guess: w.x, y_guess: w.y, heading_guess: w.heading }
    }
}

/// The directives that declare the waypoints of a path.  The k-th actual
/// point is declared under index k; if it is not the first, the guess points
/// met since the actual point before it are first attached to the segment
/// that ends in it.  Guess points before the first actual point, and after
/// the last, are attached to nothing.
pub open spec fn waypoint_directives(wps: Seq<Waypoint>) -> Seq<DirectiveView>
    decreases wps.len(),
{
    if wps.len() == 0 {
        Seq::empty()
    } else if wps.last().is_initial_guess {
        waypoint_directives(wps.drop_last())
    } else {
        let before = wps.drop_last();
        let index = actual_count(before);
        let flushed = if index > 0 {
            seq![
                DirectiveView::SgmtInitialGuessPoints {
                    from_index: (index - 1) as usize,
                    guess_points: pending_guess_points(before),
                },
            ]
        } else {
            Seq::empty()
        };
        waypoint_directives(before) + flushed + seq![declaration(index as usize, wps.last())]
    }
}

/// The control interval counts of the segments that `wps` opens, on the
/// understanding that more waypoints follow: every actual point opens a
/// segment with its own count, and every guess point adds its count to the
/// segment opened last, if there is one.
pub open spec fn open_interval_counts(wps: Seq<Waypoint>) -> Seq<int>
    decreases wps.len(),
{
    if wps.len() == 0 {
        Seq::empty()
    } else {
        let before = open_interval_counts(wps.drop_last());
        let w = wps.last();
        if !w.is_initial_guess {
            before.push(w.control_interval_count as int)
        } else if before.len() > 0 {
            before.update(before.len() - 1, before.last() + w.control_interval_count)
        } else {
            before
        }
    }
}

/// The control interval counts of the segments of a whole path: those that
/// its waypoints open, except that an actual point that is the last stored
/// waypoint opens none.
pub open spec fn interval_counts(wps: Seq<Waypoint>) -> Seq<int> {
    if wps.len() > 0 && !wps.last().is_initial_guess {
        open_interval_counts(wps.drop_last())
    } else {
        open_interval_counts(wps)
    }
}

/// No waypoint carries a negative control interval count.
pub open spec fn counts_are_natural(wps: Seq<Waypoint>) -> bool {
    forall|i: int| 0 <= i < wps.len() ==> wps[i].control_interval_count >= 0
}

/// Every segment's control interval count fits the machine's word.
pub open spec fn counts_fit(wps: Seq<Waypoint>) -> bool {
    forall|k: int| 0 <= k < interval_counts(wps).len() ==> interval_counts(wps)[k] <= usize::MAX
}

/// The first stored waypoint that carries the identifier `id`.
pub open spec fn stored_waypoint(wps: Seq<Waypoint>, id: WaypointID) -> Waypoint {
    wps[first_position(ids_of(wps), id).unwrap()]
}

/// The directives of a straight line over the unit steps from waypoint `from`
/// to waypoint `to`: each step takes the bearing between the stored poses of
/// its two ends, and each waypoint strictly inside the line is passed with
/// zero linear velocity.
pub open spec fn straight_line_directives(
    wps: Seq<Waypoint>,
    actual: Seq<WaypointID>,
    from: int,
    to: int,
) -> Seq<DirectiveView>
    decreases to - from,
{
    if to <= from {
        Seq::empty()
    } else {
        let point = to - 1;
        let start = stored_waypoint(wps, actual[point]);
        let end = stored_waypoint(wps, actual[point + 1]);
        let halt = if point != from {
            seq![
                DirectiveView::WptLinearVelocityMaxMagnitude {
                    index: point as usize,
                    magnitude: Scalar::zero(),
                },
            ]
        } else {
            Seq::empty()
        };
        straight_line_directives(wps, actual, from, point) + halt + seq![
            DirectiveView::SgmtLinearVelocityBearing {
                from_index: point as usize,
                to_index: (point + 1) as usize,
                x1: start.x,
                y1: start.y,
                x2: end.x,
                y2: end.y,
            },
        ]
    }
}

/// The directives of a constraint that resolved to the single waypoint
/// `index`.  A straight line has no meaning there and gives none.
pub open spec fn waypoint_constraint_directives(data: ConstraintData, index: usize) -> Seq<
    DirectiveView,
> {
    match data {
        ConstraintData::WptVelocityDirection { direction } => seq![
            DirectiveView::WptLinearVelocityDirection { index, angle: direction },
        ],
        ConstraintData::WptZeroVelocity => seq![
            DirectiveView::WptLinearVelocityMaxMagnitude { index, magnitude: Scalar::zero() },
        ],
        ConstraintData::StopPoint => seq![
            DirectiveView::WptLinearVelocityMaxMagnitude { index, magnitude: Scalar::zero() },
            DirectiveView::WptAngularVelocity { index, angular_velocity: Scalar::zero() },
        ],
        ConstraintData::MaxVelocity { velocity } => seq![
            DirectiveView::WptLinearVelocityMaxMagnitude { index, magnitude: velocity },
        ],
        ConstraintData::ZeroAngularVelocity => seq![
            DirectiveView::WptAngularVelocity { index, angular_velocity: Scalar::zero() },
        ],
        ConstraintData::StraightLine => Seq::empty(),
        ConstraintData::PointAt { x, y, tolerance } => seq![
            DirectiveView::WptPointAt { index, x, y, tolerance },
        ],
    }
}

/// The directives of a constraint that resolved to the segment from waypoint
/// `from_index` to waypoint `to_index`.  A velocity direction, a zero
/// velocity and a stop point have no meaning there and give none.
pub open spec fn segment_constraint_directives(
    wps: Seq<Waypoint>,
    actual: Seq<WaypointID>,
    data: ConstraintData,
    from_index: usize,
    to_index: usize,
) -> Seq<DirectiveView> {
    match data {
        ConstraintData::WptVelocityDirection { .. } => Seq::empty(),
        ConstraintData::WptZeroVelocity => Seq::empty(),
        ConstraintData::StopPoint => Seq::empty(),
        ConstraintData::MaxVelocity { velocity } => seq![
            DirectiveView::SgmtLinearVelocityMaxMagnitude {
                from_index,
                to_index,
                magnitude: velocity,
            },
        ],
        ConstraintData::ZeroAngularVelocity => seq![
            DirectiveView::SgmtAngularVelocity {
                from_index,
                to_index,
                angular_velocity: Scalar::zero(),
            },
        ],
        ConstraintData::StraightLine => straight_line_directives(
            wps,
            actual,
            from_index as int,
            to_index as int,
        ),
        ConstraintData::PointAt { x, y, tolerance } => seq![
            DirectiveView::SgmtPointAt { from_index, to_index, x, y, tolerance },
        ],
    }
}

/// The directives of one constraint on a path with the actual points
/// `actual`.  A constraint whose scope resolves to nothing gives none.
pub open spec fn constraint_directives(
    wps: Seq<Waypoint>,
    actual: Seq<WaypointID>,
    constraint: Constraint,
) -> Seq<DirectiveView> {
    match spec_resolve_scope(actual, constraint.scope) {
        None => Seq::empty(),
        Some(ResolvedScope::Waypoint { index }) => waypoint_constraint_directives(
            constraint.data,
            index,
        ),
        Some(ResolvedScope::Segment { from_index, to_index }) => segment_constraint_directives(
            wps,
            actual,
            constraint.data,
            from_index,
            to_index,
        ),
    }
}

/// The directives of the constraints of a path, constraint after constraint.
pub open spec fn all_constraint_directives(
    wps: Seq<Waypoint>,
    actual: Seq<WaypointID>,
    constraints: Seq<Constraint>,
) -> Seq<DirectiveView>
    decreases constraints.len(),
{
    if constraints.len() == 0 {
        Seq::empty()
    } else {
        all_constraint_directives(wps, actual, constraints.drop_last()) + constraint_directives(
            wps,
            actual,
            constraints.last(),
        )
    }
}

/// The request for a path: the declarations of its waypoints with the guess
/// points of each segment, the control interval counts, the directives of
/// its constraints, the bumpers, the drivetrain, and the order to generate.
pub open spec fn spec_request(
    path_id: i64,
    wps: Seq<Waypoint>,
    constraints: Seq<Constraint>,
    config: ChoreoRobotConfig,
) -> Seq<DirectiveView> {
    let counts = interval_counts(wps);
    waypoint_directives(wps) + seq![
        DirectiveView::SetControlIntervalCounts {
            counts: Seq::new(counts.len(), |k: int| counts[k] as usize),
        },
    ] + all_constraint_directives(wps, actual_points(wps), constraints) + seq![
        DirectiveView::SetBumpers { length: config.bumper_length, width: config.bumper_width },
        DirectiveView::SetDrivetrain { config },
        DirectiveView::Generate { diagnostics: true, handle: path_id },
    ]
}

/// The mathematical content of a list of directives.
pub open spec fn directive_views(directives: Seq<Directive>) -> Seq<DirectiveView> {
    Seq::new(directives.len(), |i: int| directives[i]@)
}

/// There are no more actual points than waypoints, and as many identifiers
/// of actual points as actual points.
pub proof fn lemma_actual_count(wps: Seq<Waypoint>)
    ensures
        actual_count(wps) <= wps.len(),
        actual_points(wps).len() == actual_count(wps),
    decreases wps.len(),
{
    if wps.len() > 0 {
        lemma_actual_count(wps.drop_last());
    }
}

/// Every actual point is a stored waypoint that is no initial guess.
pub proof fn lemma_actual_points_are_stored(wps: Seq<Waypoint>, k: int)
    requires
        0 <= k < actual_points(wps).len(),
    ensures
        exists|j: int|
            0 <= j < wps.len() && !wps[j].is_initial_guess && #[trigger] wps[j].id
                == actual_points(wps)[k],
    decreases wps.len(),
{
    if wps.len() > 0 {
        let before = wps.drop_last();
        if !wps.last().is_initial_guess && k == actual_points(before).len() {
            assert(wps[wps.len() - 1].id == actual_points(wps)[k]);
        } else {
            lemma_actual_points_are_stored(before, k);
            let j = choose|j: int|
                0 <= j < before.len() && !before[j].is_initial_guess && #[trigger] before[j].id
                    == actual_points(before)[k];
            assert(wps[j].id == actual_points(wps)[k]);
        }
    }
}

/// While no count is negative, the segments opened by a longer prefix of the
/// path include those opened by a shorter one, with counts at least as large.
pub proof fn lemma_open_counts_grow(wps: Seq<Waypoint>, i: int, j: int)
    requires
        counts_are_natural(wps),
        0 <= i <= j <= wps.len(),
    ensures
        open_interval_counts(wps.take(i)).len() <= open_interval_counts(wps.take(j)).len(),
        forall|k: int|
            0 <= k < open_interval_counts(wps.take(i)).len() ==> open_interval_counts(
                wps.take(i),
            )[k] <= #[trigger] open_interval_counts(wps.take(j))[k],
    decreases j - i,
{
    if i < j {
        lemma_open_counts_grow(wps, i, j - 1);
        assert(wps.take(j).drop_last() =~= wps.take(j - 1));
        assert(wps.take(j).last() == wps[j - 1]);
    }
}

/// The number of segments of a path: one less than the number of its actual
/// points if its last stored waypoint is an actual point, as many as actual
/// points otherwise.
pub proof fn lemma_interval_count_len(wps: Seq<Waypoint>)
    ensures
        open_interval_counts(wps).len() == actual_count(wps),
        interval_counts(wps).len() == if wps.len() > 0 && !wps.last().is_initial_guess {
            actual_count(wps) - 1
        } else {
            actual_count(wps) as int
        },
    decreases wps.len(),
{
    if wps.len() > 0 {
        lemma_interval_count_len(wps.drop_last());
    }
}

/// Index of the first stored waypoint that carries the identifier `id`.
fn find_stored(waypoints: &Vec<Waypoint>, id: WaypointID) -> (r: Option<usize>)
    ensures
        match r {
            Some(i) => first_position(ids_of(waypoints@), id) == Some(i as int) && i
                < waypoints.len(),
            None => first_position(ids_of(waypoints@), id) is None,
        },
{
    let mut i: usize = 0;
    while i < waypoints.len()
        invariant
            i <= waypoints.len(),
            forall|j: int| 0 <= j < i ==> ids_of(waypoints@)[j] != id,
        decreases waypoints.len() - i,
    {
        if waypoints[i].id == id {
            proof {
                lemma_first_position_found(ids_of(waypoints@), id, i as int);
            }
            return Some(i);
        }
        i += 1;
    }
    proof {
        lemma_first_position_absent(ids_of(waypoints@), id);
    }
    None
}

/// Tells whether some waypoint carries a negative control interval count.
pub fn has_negative_count(waypoints: &Vec<Waypoint>) -> (b: bool)
    ensures
        b == !counts_are_natural(waypoints@),
{
    let mut i: usize = 0;
    while i < waypoints.len()
        invariant
            i <= waypoints.len(),
            forall|j: int| 0 <= j < i ==> waypoints[j].control_interval_count >= 0,
        decreases waypoints.len() - i,
    {
        if waypoints[i].control_interval_count < 0 {
            return true;
        }
        i += 1;
    }
    false
}

/// Builds the directive that declares the actual point `wpt` under `index`.
pub fn declare_waypoint(index: usize, wpt: &Waypoint) -> (d: Directive)
    ensures
        d@ == declaration(index, *wpt),
{
    if wpt.heading_constrained && wpt.translation_constrained {
        Directive::PoseWpt { index, x: wpt.x, y: wpt.y, heading: wpt.heading }
    } else if wpt.translation_constrained {
        Directive::TranslationWpt { index, x: wpt.x, y: wpt.y, heading_guess: wpt.heading }
    } else {
        Directive::EmptyWpt { index, x_guess: wpt.x, y_guess: wpt.y, heading_guess: wpt.heading }
    }
}

/// What the pass over the waypoints of a path yields.
struct WaypointPass {
    directives: Vec<Directive>,
    counts: Vec<usize>,
    actual_points: Vec<WaypointID>,
}

/// The counts `counts` are the mathematical counts `model`.
spec fn counts_match(counts: Seq<usize>, model: Seq<int>) -> bool {
    &&& counts.len() == model.len()
    &&& forall|k: int| 0 <= k < counts.len() ==> counts[k] as int == model[k]
}

/// The segments opened once the first `n` waypoints of `wps` are passed.
spec fn counts_after(wps: Seq<Waypoint>, n: int) -> Seq<int> {
    if n == wps.len() {
        interval_counts(wps)
    } else {
        open_interval_counts(wps.take(n))
    }
}

/// Passes over the waypoints in stored order: declares the actual points,
/// attaches the guess points between two of them to the segment they lie in,
/// and adds up the control intervals of every segment.
fn pass_waypoints(waypoints: &Vec<Waypoint>) -> (r: Result<WaypointPass, CompileError>)
    requires
        counts_are_natural(waypoints@),
    ensures
        match r {
            Ok(pass) => {
                &&& directive_views(pass.directives@) == waypoint_directives(waypoints@)
                &&& counts_match(pass.counts@, interval_counts(waypoints@))
                &&& pass.actual_points@ == actual_points(waypoints@)
            },
            Err(e) => e == CompileError::ControlIntervalOverflow && !counts_fit(waypoints@),
        },
{
    let ghost wps = waypoints@;
    let n = waypoints.len();
    let mut directives: Vec<Directive> = Vec::new();
    let mut wpt_cnt: usize = 0;
    let mut control_interval_counts: Vec<usize> = Vec::new();
    let mut guess_points_after_waypoint: Vec<GuessPoint> = Vec::new();
    let mut actual: Vec<WaypointID> = Vec::new();
    let mut idx: usize = 0;
    proof {
        assert(wps.take(0) =~= Seq::<Waypoint>::empty());
        assert(directive_views(directives@) =~= waypoint_directives(wps.take(0)));
        if n == 0 {
            assert(interval_counts(wps) =~= Seq::<int>::empty());
        }
    }
    while idx < n
        invariant
            wps == waypoints@,
            n == waypoints.len(),
            idx <= n,
            counts_are_natural(wps),
            directive_views(directives@) == waypoint_directives(wps.take(idx as int)),
            guess_points_after_waypoint@ == pending_guess_points(wps.take(idx as int)),
            wpt_cnt == actual_count(wps.take(idx as int)),
            actual@ == actual_points(wps.take(idx as int)),
            counts_match(control_interval_counts@, counts_after(wps, idx as int)),
        decreases n - idx,
    {
        let wpt = waypoints[idx];
        let ghost before = wps.take(idx as int);
        let ghost upto = wps.take(idx + 1);
        proof {
            assert(upto.drop_last() =~= before);
            assert(upto.last() == wpt);
            lemma_actual_count(before);
            lemma_interval_count_len(before);
            if idx + 1 == n {
                assert(upto =~= wps);
            }
        }
        if wpt.is_initial_guess {
            guess_points_after_waypoint.push(
                GuessPoint { x: wpt.x, y: wpt.y, heading: wpt.heading },
            );
            let segments = control_interval_counts.len();
            if segments > 0 {
                let last = control_interval_counts[segments - 1];
                match last.checked_add(wpt.control_interval_count as usize) {
                    Some(total) => {
                        control_interval_counts.set(segments - 1, total);
                    },
                    None => {
                        proof {
                            let k = segments - 1;
                            assert(open_interval_counts(upto)[k] > usize::MAX);
                            if wps.last().is_initial_guess {
                                lemma_open_counts_grow(wps, idx + 1, n as int);
                                assert(wps.take(n as int) =~= wps);
                                assert(interval_counts(wps)[k] > usize::MAX);
                            } else {
                                lemma_open_counts_grow(wps, idx + 1, n - 1);
                                assert(wps.take(n - 1) =~= wps.drop_last());
                                assert(interval_counts(wps)[k] > usize::MAX);
                            }
                        }
                        return Err(CompileError::ControlIntervalOverflow);
                    },
                }
            }
        } else {
            if wpt_cnt > 0 {
                let ghost flushed = directives@;
                directives.push(
                    Directive::SgmtInitialGuessPoints {
                        from_index: wpt_cnt - 1,
                        guess_points: guess_points_after_waypoint,
                    },
                );
                proof {
                    assert(directive_views(directives@) =~= directive_views(flushed).push(
                        DirectiveView::SgmtInitialGuessPoints {
                            from_index: (wpt_cnt - 1) as usize,
                            guess_points: pending_guess_points(before),
                        },
                    ));
                }
            }
            guess_points_after_waypoint = Vec::new();
            actual.push(wpt.id);
            let ghost declared = directives@;
            let declare = declare_waypoint(wpt_cnt, &wpt);
            directives.push(declare);
            proof {
                assert(directive_views(directives@) =~= directive_views(declared).push(
                    declaration(wpt_cnt, wpt),
                ));
                assert(directive_views(directives@) =~= waypoint_directives(upto));
            }
            wpt_cnt += 1;
            if idx != n - 1 {
                control_interval_counts.push(wpt.control_interval_count as usize);
            }
        }
        idx += 1;
    }
    proof {
        assert(wps.take(n as int) =~= wps);
    }
    Ok(WaypointPass { directives, counts: control_interval_counts, actual_points: actual })
}

/// The first stored waypoint that carries `id`, which some waypoint does.
fn stored_pose(waypoints: &Vec<Waypoint>, id: WaypointID) -> (w: Waypoint)
    requires
        exists|j: int| 0 <= j < waypoints.len() && #[trigger] waypoints[j].id == id,
    ensures
        w == stored_waypoint(waypoints@, id),
{
    let mut i: usize = 0;
    while waypoints[i].id != id
        invariant
            i < waypoints.len(),
            forall|j: int| 0 <= j < i ==> ids_of(waypoints@)[j] != id,
            exists|j: int| i <= j < waypoints.len() && #[trigger] waypoints[j].id == id,
        decreases waypoints.len() - i,
    {
        i += 1;
    }
    proof {
        lemma_first_position_found(ids_of(waypoints@), id, i as int);
    }
    waypoints[i]
}

/// Appends the directives of a straight line from waypoint `from_index` to
/// waypoint `to_index`.
fn push_straight_line(
    directives: &mut Vec<Directive>,
    waypoints: &Vec<Waypoint>,
    actual: &Vec<WaypointID>,
    from_index: usize,
    to_index: usize,
)
    requires
        actual@ == actual_points(waypoints@),
        from_index <= to_index < actual.len(),
    ensures
        directive_views(final(directives)@) == directive_views(old(directives)@)
            + straight_line_directives(
            waypoints@,
            actual@,
            from_index as int,
            to_index as int,
        ),
{
    let ghost start = directive_views(directives@);
    let mut point = from_index;
    proof {
        assert(directive_views(directives@) =~= start + straight_line_directives(
            waypoints@,
            actual@,
            from_index as int,
            from_index as int,
        ));
    }
    while point < to_index
        invariant
            actual@ == actual_points(waypoints@),
            from_index <= point <= to_index < actual.len(),
            directive_views(directives@) == start + straight_line_directives(
                waypoints@,
                actual@,
                from_index as int,
                point as int,
            ),
        decreases to_index - point,
    {
        let this_pt = point;
        let next_pt = point + 1;
        let ghost done = directive_views(directives@);
        if this_pt != from_index {
            directives.push(
                Directive::WptLinearVelocityMaxMagnitude {
                    index: this_pt,
                    magnitude: Scalar::zero(),
                },
            );
        }
        let ghost halted = directive_views(directives@);
        proof {
            lemma_actual_points_are_stored(waypoints@, this_pt as int);
            lemma_actual_points_are_stored(waypoints@, next_pt as int);
        }
        let pt1 = stored_pose(waypoints, actual[this_pt]);
        let pt2 = stored_pose(waypoints, actual[next_pt]);
        directives.push(
            Directive::SgmtLinearVelocityBearing {
                from_index: this_pt,
                to_index: next_pt,
                x1: pt1.x,
                y1: pt1.y,
                x2: pt2.x,
                y2: pt2.y,
            },
        );
        proof {
            let halt = if this_pt != from_index {
                seq![
                    DirectiveView::WptLinearVelocityMaxMagnitude {
                        index: this_pt,
                        magnitude: Scalar::zero(),
                    },
                ]
            } else {
                Seq::empty()
            };
            let step = seq![
                DirectiveView::SgmtLinearVelocityBearing {
                    from_index: this_pt,
                    to_index: next_pt,
                    x1: pt1.x,
                    y1: pt1.y,
                    x2: pt2.x,
                    y2: pt2.y,
                },
            ];
            assert(halted =~= done + halt);
            assert(directive_views(directives@) =~= halted + step);
            assert(directive_views(directives@) =~= start + (straight_line_directives(
                waypoints@,
                actual@,
                from_index as int,
                point as int,
            ) + halt + step));
        }
        point += 1;
    }
}

/// Appends one directive.
fn push_directive(directives: &mut Vec<Directive>, directive: Directive)
    ensures
        directive_views(final(directives)@) == directive_views(old(directives)@).push(directive@),
{
    directives.push(directive);
    assert(directive_views(directives@) =~= directive_views(old(directives)@).push(directive@));
}

/// Appends the directives of one constraint.
fn push_constraint(
    directives: &mut Vec<Directive>,
    waypoints: &Vec<Waypoint>,
    actual: &Vec<WaypointID>,
    constraint: &Constraint,
)
    requires
        actual@ == actual_points(waypoints@),
    ensures
        directive_views(final(directives)@) == directive_views(old(directives)@)
            + constraint_directives(waypoints@, actual@, *constraint),
{
    let ghost start = directive_views(directives@);
    let ghost wanted = constraint_directives(waypoints@, actual@, *constraint);
    match resolve_scope(actual, &constraint.scope) {
        None => {
            assert(start =~= start + wanted);
        },
        Some(ResolvedScope::Waypoint { index }) => {
            match constraint.data {
                ConstraintData::WptVelocityDirection { direction } => {
                    push_directive(
                        directives,
                        Directive::WptLinearVelocityDirection { index, angle: direction },
                    );
                },
                ConstraintData::WptZeroVelocity => {
                    push_directive(
                        directives,
                        Directive::WptLinearVelocityMaxMagnitude {
                            index,
                            magnitude: Scalar::zero(),
                        },
                    );
                },
                ConstraintData::StopPoint => {
                    push_directive(
                        directives,
                        Directive::WptLinearVelocityMaxMagnitude {
                            index,
                            magnitude: Scalar::zero(),
                        },
                    );
                    push_directive(
                        directives,
                        Directive::WptAngularVelocity { index, angular_velocity: Scalar::zero() },
                    );
                },
                ConstraintData::MaxVelocity { velocity } => {
                    push_directive(
                        directives,
                        Directive::WptLinearVelocityMaxMagnitude { index, magnitude: velocity },
                    );
                },
                ConstraintData::ZeroAngularVelocity => {
                    push_directive(
                        directives,
                        Directive::WptAngularVelocity { index, angular_velocity: Scalar::zero() },
                    );
                },
                ConstraintData::StraightLine => {},
                ConstraintData::PointAt { x, y, tolerance } => {
                    push_directive(directives, Directive::WptPointAt { index, x, y, tolerance });
                },
            }
            assert(directive_views(directives@) =~= start + wanted);
        },
        Some(ResolvedScope::Segment { from_index, to_index }) => {
            match constraint.data {
                ConstraintData::WptVelocityDirection { .. } => {},
                ConstraintData::WptZeroVelocity => {},
                ConstraintData::StopPoint => {},
                ConstraintData::MaxVelocity { velocity } => {
                    push_directive(
                        directives,
                        Directive::SgmtLinearVelocityMaxMagnitude {
                            from_index,
                            to_index,
                            magnitude: velocity,
                        },
                    );
                },
                ConstraintData::ZeroAngularVelocity => {
                    push_directive(
                        directives,
                        Directive::SgmtAngularVelocity {
                            from_index,
                            to_index,
                            angular_velocity: Scalar::zero(),
                        },
                    );
                },
                ConstraintData::StraightLine => {
                    push_straight_line(directives, waypoints, actual, from_index, to_index);
                },
                ConstraintData::PointAt { x, y, tolerance } => {
                    push_directive(
                        directives,
                        Directive::SgmtPointAt { from_index, to_index, x, y, tolerance },
                    );
                },
            }
            assert(directive_views(directives@) =~= start + wanted);
        },
    }
}

/// Compiles a path into the request for its trajectory.
///
/// `waypoints` are the waypoints of the path in stored order, `constraints`
/// its constraints, `config` the robot, and `path_id` the handle under which
/// the optimizer reports.  The request is refused if a waypoint carries a
/// negative control interval count, or else if the control intervals of some
/// segment do not fit the machine's word; otherwise it is the one that
/// `spec_request` describes.
pub fn generate_trajectory(
    waypoints: &Vec<Waypoint>,
    constraints: &Vec<Constraint>,
    config: &ChoreoRobotConfig,
    path_id: i64,
) -> (r: Result<TrajectoryRequest, CompileError>)
    ensures
        match r {
            Ok(request) => {
                &&& counts_are_natural(waypoints@)
                &&& counts_fit(waypoints@)
                &&& request@ == spec_request(path_id, waypoints@, constraints@, *config)
            },
            Err(CompileError::NegativeControlIntervalCount) => !counts_are_natural(waypoints@),
            Err(CompileError::ControlIntervalOverflow) => counts_are_natural(waypoints@)
                && !counts_fit(waypoints@),
        },
{
    if has_negative_count(waypoints) {
        return Err(CompileError::NegativeControlIntervalCount);
    }
    let pass = match pass_waypoints(waypoints) {
        Ok(pass) => pass,
        Err(e) => {
            return Err(e);
        },
    };
    let mut directives = pass.directives;
    let actual = pass.actual_points;
    let ghost model = interval_counts(waypoints@);
    let ghost counts = Seq::new(model.len(), |k: int| model[k] as usize);
    assert(pass.counts@ =~= counts);
    push_directive(&mut directives, Directive::SetControlIntervalCounts { counts: pass.counts });
    let ghost declared = directive_views(directives@);
    let mut i: usize = 0;
    proof {
        assert(constraints@.take(0) =~= Seq::<Constraint>::empty());
        assert(declared =~= declared + all_constraint_directives(
            waypoints@,
            actual@,
            constraints@.take(0),
        ));
    }
    while i < constraints.len()
        invariant
            i <= constraints.len(),
            actual@ == actual_points(waypoints@),
            directive_views(directives@) == declared + all_constraint_directives(
                waypoints@,
                actual@,
                constraints@.take(i as int),
            ),
        decreases constraints.len() - i,
    {
        let ghost done = all_constraint_directives(waypoints@, actual@, constraints@.take(i as int));
        push_constraint(&mut directives, waypoints, &actual, &constraints[i]);
        proof {
            assert(constraints@.take(i + 1).drop_last() =~= constraints@.take(i as int));
            assert(constraints@.take(i + 1).last() == constraints@[i as int]);
            assert(directive_views(directives@) =~= declared + (done + constraint_directives(
                waypoints@,
                actual@,
                constraints@[i as int],
            )));
        }
        i += 1;
    }
    proof {
        assert(constraints@.take(constraints.len() as int) =~= constraints@);
    }
    push_directive(
        &mut directives,
        Directive::SetBumpers { length: config.bumper_length, width: config.bumper_width },
    );
    push_directive(&mut directives, Directive::SetDrivetrain { config: *config });
    push_directive(&mut directives, Directive::Generate { diagnostics: true, handle: path_id });
    let request = TrajectoryRequest { directives };
    proof {
        assert(request@ =~= directive_views(request.directives@));
        assert(request@ =~= spec_request(path_id, waypoints@, constraints@, *config));
    }
    Ok(request)
}

/// A scope resolves to the same positions whichever of its two endpoints
/// was written first.
pub proof fn lemma_resolve_scope_symmetric(
    actual: Seq<WaypointID>,
    first: Option<WaypointScope>,
    second: Option<WaypointScope>,
)
    ensures
        spec_resolve_scope(actual, ConstraintScope(first, second)) == spec_resolve_scope(
            actual,
            ConstraintScope(second, first),
        ),
{
}

/// A constraint whose scope names no waypoint gives no directive.
pub proof fn lemma_unresolved_constraint_is_dropped(
    wps: Seq<Waypoint>,
    actual: Seq<WaypointID>,
    constraint: Constraint,
)
    requires
        constraint.scope == ConstraintScope(None, None),
    ensures
        constraint_directives(wps, actual, constraint) == Seq::<DirectiveView>::empty(),
{
}

/// The directives of the constraints of a path are the same with and without
/// a constraint whose scope names no waypoint, wherever it stands among them.
pub proof fn lemma_dropped_constraint_leaves_no_trace(
    wps: Seq<Waypoint>,
    actual: Seq<WaypointID>,
    constraints: Seq<Constraint>,
    i: int,
)
    requires
        0 <= i < constraints.len(),
        constraints[i].scope == ConstraintScope(None, None),
    ensures
        all_constraint_directives(wps, actual, constraints) == all_constraint_directives(
            wps,
            actual,
            constraints.remove(i),
        ),
    decreases constraints.len(),
{
    let rest = constraints.drop_last();
    if i == constraints.len() - 1 {
        assert(constraints.remove(i) =~= rest);
        assert(all_constraint_directives(wps, actual, constraints) =~= all_constraint_directives(
            wps,
            actual,
            rest,
        ));
    } else {
        lemma_dropped_constraint_leaves_no_trace(wps, actual, rest, i);
        assert(constraints.remove(i).drop_last() =~= rest.remove(i));
        assert(constraints.remove(i).last() == constraints.last());
    }
}

/// A constraint whose scope names no waypoint changes neither the request
/// of a path nor whether the path can be compiled.
pub proof fn lemma_dropped_constraint_leaves_request(
    path_id: i64,
    wps: Seq<Waypoint>,
    constraints: Seq<Constraint>,
    config: ChoreoRobotConfig,
    i: int,
)
    requires
        0 <= i < constraints.len(),
        constraints[i].scope == ConstraintScope(None, None),
    ensures
        spec_request(path_id, wps, constraints, config) == spec_request(
            path_id,
            wps,
            constraints.remove(i),
            config,
        ),
{
    lemma_dropped_constraint_leaves_no_trace(wps, actual_points(wps), constraints, i);
}

/// Every identifier of `ids` is carried by a stored waypoint.
pub open spec fn all_stored(ids: Seq<WaypointID>, stored: Seq<Waypoint>) -> bool {
    forall|i: int| 0 <= i < ids.len() ==> first_position(ids_of(stored), #[trigger] ids[i]) is Some
}

/// Arranges the stored waypoints of a path in the order that `ids` gives:
/// the result holds, for each identifier in turn, the first stored waypoint
/// that carries it.  There is no result if an identifier has no waypoint.
pub fn waypoints_in_order(ids: &Vec<WaypointID>, stored: &Vec<Waypoint>) -> (r: Option<
    Vec<Waypoint>,
>)
    ensures
        match r {
            Some(waypoints) => {
                &&& all_stored(ids@, stored@)
                &&& waypoints.len() == ids.len()
                &&& forall|i: int|
                    0 <= i < ids.len() ==> #[trigger] waypoints[i] == stored_waypoint(
                        stored@,
                        ids[i],
                    )
            },
            None => !all_stored(ids@, stored@),
        },
{
    let mut waypoints: Vec<Waypoint> = Vec::new();
    let mut i: usize = 0;
    while i < ids.len()
        invariant
            i <= ids.len(),
            waypoints.len() == i,
            forall|e: int| 0 <= e < i ==> first_position(ids_of(stored@), #[trigger] ids[e]) is Some,
            forall|e: int|
                0 <= e < i ==> #[trigger] waypoints[e] == stored_waypoint(stored@, ids[e]),
        decreases ids.len() - i,
    {
        match find_stored(stored, ids[i]) {
            Some(at) => {
                waypoints.push(stored[at]);
            },
            None => {
                return None;
            },
        }
        i += 1;
    }
    Some(waypoints)
}

} // verus!
