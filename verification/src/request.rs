//! The optimizer request: an ordered list of directives for a path builder.

use vstd::prelude::*;
use crate::robotconfig::ChoreoRobotConfig;
use crate::scalar::Scalar;

verus! {

/// A pose that seeds the optimizer's solution without constraining it.
#[derive(Clone, Copy, Debug, PartialEq, Eq, Structural)]
pub struct GuessPoint {
    pub x: Scalar,
    pub y: Scalar,
    pub heading: Scalar,
}

/// One call on the optimizer's path builder.  Waypoints are addressed by
/// their index among the waypoints that the request declares, segments by the
/// indices of the waypoints at their two ends.
#[derive(Clone, Debug, PartialEq, Eq)]
pub enum Directive {
    /// Declares waypoint `index` with position and heading constrained.
    PoseWpt { index: usize, x: Scalar, y: Scalar, heading: Scalar },
    /// Declares waypoint `index` with its position constrained; the heading
    /// only seeds the solution.
    TranslationWpt { index: usize, x: Scalar, y: Scalar, heading_guess: Scalar },
    /// Declares waypoint `index` without constraining it; the pose only
    /// seeds the solution.
    EmptyWpt { index: usize, x_guess: Scalar, y_guess: Scalar, heading_guess: Scalar },
    /// Seeds the segment that starts at waypoint `from_index` with
    /// `guess_points`, in order.
    SgmtInitialGuessPoints { from_index: usize, guess_points: Vec<GuessPoint> },
    /// Gives every segment its number of control intervals.
    SetControlIntervalCounts { counts: Vec<usize> },
    /// The linear velocity at waypoint `index` points in direction `angle`.
    WptLinearVelocityDirection { index: usize, angle: Scalar },
    /// The linear speed at waypoint `index` is at most `magnitude`.
    WptLinearVelocityMaxMagnitude { index: usize, magnitude: Scalar },
    /// The angular velocity at waypoint `index` is `angular_velocity`.
    WptAngularVelocity { index: usize, angular_velocity: Scalar },
    /// The robot at waypoint `index` faces `(x, y)` to within `tolerance`.
    WptPointAt { index: usize, x: Scalar, y: Scalar, tolerance: Scalar },
    /// The linear speed from waypoint `from_index` to waypoint `to_index` is
    /// at most `magnitude`.
    SgmtLinearVelocityMaxMagnitude { from_index: usize, to_index: usize, magnitude: Scalar },
    /// The angular velocity from waypoint `from_index` to waypoint `to_index`
    /// is `angular_velocity`.
    SgmtAngularVelocity { from_index: usize, to_index: usize, angular_velocity: Scalar },
    /// The linear velocity from waypoint `from_index` to waypoint `to_index`
    /// points along the bearing from `(x1, y1)` to `(x2, y2)`, the angle
    /// whose tangent is `(y2 - y1) / (x2 - x1)` taken in the right quadrant.
    SgmtLinearVelocityBearing {
        from_index: usize,
        to_index: usize,
        x1: Scalar,
        y1: Scalar,
        x2: Scalar,
        y2: Scalar,
    },
    /// The robot faces `(x, y)` to within `tolerance` from waypoint
    /// `from_index` to waypoint `to_index`.
    SgmtPointAt { from_index: usize, to_index: usize, x: Scalar, y: Scalar, tolerance: Scalar },
    /// Sets the size of the bumpers.
    SetBumpers { length: Scalar, width: Scalar },
    /// Sets the drivetrain to the one that `config` describes.
    SetDrivetrain { config: ChoreoRobotConfig },
    /// Asks for the trajectory, to be reported under `handle`.
    Generate { diagnostics: bool, handle: i64 },
}

/// The mathematical content of a directive.
pub ghost enum DirectiveView {
    PoseWpt { index: usize, x: Scalar, y: Scalar, heading: Scalar },
    TranslationWpt { index: usize, x: Scalar, y: Scalar, heading_guess: Scalar },
    EmptyWpt { index: usize, x_guess: Scalar, y_guess: Scalar, heading_guess: Scalar },
    SgmtInitialGuessPoints { from_index: usize, guess_points: Seq<GuessPoint> },
    SetControlIntervalCounts { counts: Seq<usize> },
    WptLinearVelocityDirection { index: usize, angle: Scalar },
    WptLinearVelocityMaxMagnitude { index: usize, magnitude: Scalar },
    WptAngularVelocity { index: usize, angular_velocity: Scalar },
    WptPointAt { index: usize, x: Scalar, y: Scalar, tolerance: Scalar },
    SgmtLinearVelocityMaxMagnitude { from_index: usize, to_index: usize, magnitude: Scalar },
    SgmtAngularVelocity { from_index: usize, to_index: usize, angular_velocity: Scalar },
    SgmtLinearVelocityBearing {
        from_index: usize,
        to_index: usize,
        x1: Scalar,
        y1: Scalar,
        x2: Scalar,
        y2: Scalar,
    },
    SgmtPointAt { from_index: usize, to_index: usize, x: Scalar, y: Scalar, tolerance: Scalar },
    SetBumpers { length: Scalar, width: Scalar },
    SetDrivetrain { config: ChoreoRobotConfig },
    Generate { diagnostics: bool, handle: i64 },
}

impl View for Directive {
    type V = DirectiveView;

    open spec fn view(&self) -> DirectiveView {
        match *self {
            Directive::PoseWpt { index, x, y, heading } => DirectiveView::PoseWpt {
                index,
                x,
                y,
                heading,
            },
            Directive::TranslationWpt { index, x, y, heading_guess } => {
                DirectiveView::TranslationWpt { index, x, y, heading_guess }
            },
            Directive::EmptyWpt { index, x_guess, y_guess, heading_guess } => {
                DirectiveView::EmptyWpt { index, x_guess, y_guess, heading_guess }
            },
            Directive::SgmtInitialGuessPoints { from_index, guess_points } => {
                DirectiveView::SgmtInitialGuessPoints { from_index, guess_points: guess_points@ }
            },
            Directive::SetControlIntervalCounts { counts } => {
                DirectiveView::SetControlIntervalCounts { counts: counts@ }
            },
            Directive::WptLinearVelocityDirection { index, angle } => {
                DirectiveView::WptLinearVelocityDirection { index, angle }
            },
            Directive::WptLinearVelocityMaxMagnitude { index, magnitude } => {
                DirectiveView::WptLinearVelocityMaxMagnitude { index, magnitude }
            },
            Directive::WptAngularVelocity { index, angular_velocity } => {
                DirectiveView::WptAngularVelocity { index, angular_velocity }
            },
            Directive::WptPointAt { index, x, y, tolerance } => DirectiveView::WptPointAt {
                index,
                x,
                y,
                tolerance,
            },
            Directive::SgmtLinearVelocityMaxMagnitude { from_index, to_index, magnitude } => {
                DirectiveView::SgmtLinearVelocityMaxMagnitude { from_index, to_index, magnitude }
            },
            Directive::SgmtAngularVelocity { from_index, to_index, angular_velocity } => {
                DirectiveView::SgmtAngularVelocity { from_index, to_index, angular_velocity }
            },
            Directive::SgmtLinearVelocityBearing { from_index, to_index, x1, y1, x2, y2 } => {
                DirectiveView::SgmtLinearVelocityBearing { from_index, to_index, x1, y1, x2, y2 }
            },
            Directive::SgmtPointAt { from_index, to_index, x, y, tolerance } => {
                DirectiveView::SgmtPointAt { from_index, to_index, x, y, tolerance }
            },
            Directive::SetBumpers { length, width } => DirectiveView::SetBumpers { length, width },
            Directive::SetDrivetrain { config } => DirectiveView::SetDrivetrain { config },
            Directive::Generate { diagnostics, handle } => DirectiveView::Generate {
                diagnostics,
                handle,
            },
        }
    }
}

/// A compiled request: the directives in the order in which the path builder
/// has to receive them.
#[derive(Clone, Debug, PartialEq, Eq)]
pub struct TrajectoryRequest {
    pub directives: Vec<Directive>,
}

impl View for TrajectoryRequest {
    type V = Seq<DirectiveView>;

    open spec fn view(&self) -> Seq<DirectiveView> {
        Seq::new(self.directives@.len(), |i: int| self.directives@[i]@)
    }
}

} // verus!
