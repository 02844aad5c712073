//! Trajectory-request compiler for a swerve-drive path planner.
//!
//! A path is an ordered list of waypoints annotated with constraints.  This
//! crate keeps the waypoint order as a doubly linked list of rows, resolves
//! symbolic constraint scopes into positions on the path, groups initial-guess
//! points into the segments they belong to, and emits the ordered list of
//! directives that a numerical optimizer's path builder has to receive.
//!
//! Every executable function is verified against the contract in its header.

pub mod scalar;
pub mod waypoint;
pub mod constraint;
pub mod robotconfig;
pub mod request;
pub mod path;
pub mod order;
