//! The robot's physical parameters.

use vstd::prelude::*;
use crate::scalar::Scalar;

verus! {

/// The physical parameters of the robot: inertia, motor limits and geometry.
/// The compiler hands them to the optimizer unchanged.
#[derive(Clone, Copy, Debug, PartialEq, Eq, Structural)]
pub struct ChoreoRobotConfig {
    pub mass: Scalar,
    pub rotational_inertia: Scalar,
    pub motor_max_velocity: Scalar,
    pub motor_max_torque: Scalar,
    pub gearing: Scalar,
    pub wheel_radius: Scalar,
    pub bumper_width: Scalar,
    pub bumper_length: Scalar,
    pub wheelbase: Scalar,
    pub trackwidth: Scalar,
}

/// 74.088, the default mass.
pub const DEFAULT_MASS: u64 = 0x4052_85a1_cac0_8312;

/// 6.0, the default rotational inertia.
pub const DEFAULT_ROTATIONAL_INERTIA: u64 = 0x4018_0000_0000_0000;

/// 4800.0, the default motor speed limit.
pub const DEFAULT_MOTOR_MAX_VELOCITY: u64 = 0x40b2_c000_0000_0000;

/// 1.162, the default motor torque limit.
pub const DEFAULT_MOTOR_MAX_TORQUE: u64 = 0x3ff2_978d_4fdf_3b64;

/// 6.75, the default gearing.
pub const DEFAULT_GEARING: u64 = 0x401b_0000_0000_0000;

/// 0.050799972568014815, the default wheel radius.
pub const DEFAULT_WHEEL_RADIUS: u64 = 0x3faa_0274_39a2_77de;

/// 0.876, the default bumper width and length.
pub const DEFAULT_BUMPER_SIDE: u64 = 0x3fec_0831_26e9_78d5;

/// 0.578, the default wheelbase and track width.
pub const DEFAULT_WHEEL_SPACING: u64 = 0x3fe2_7ef9_db22_d0e5;

impl ChoreoRobotConfig {
    /// The configuration of a robot about which nothing else is known.
    pub open spec fn spec_default() -> ChoreoRobotConfig {
        ChoreoRobotConfig {
            mass: Scalar { bits: DEFAULT_MASS },
            rotational_inertia: Scalar { bits: DEFAULT_ROTATIONAL_INERTIA },
            motor_max_velocity: Scalar { bits: DEFAULT_MOTOR_MAX_VELOCITY },
            motor_max_torque: Scalar { bits: DEFAULT_MOTOR_MAX_TORQUE },
            gearing: Scalar { bits: DEFAULT_GEARING },
            wheel_radius: Scalar { bits: DEFAULT_WHEEL_RADIUS },
            bumper_width: Scalar { bits: DEFAULT_BUMPER_SIDE },
            bumper_length: Scalar { bits: DEFAULT_BUMPER_SIDE },
            wheelbase: Scalar { bits: DEFAULT_WHEEL_SPACING },
            trackwidth: Scalar { bits: DEFAULT_WHEEL_SPACING },
        }
    }
}

impl Default for ChoreoRobotConfig {
    fn default() -> (config: ChoreoRobotConfig)
        ensures
            config == ChoreoRobotConfig::spec_default(),
    {
        ChoreoRobotConfig {
            mass: Scalar::from_bits(DEFAULT_MASS),
            rotational_inertia: Scalar::from_bits(DEFAULT_ROTATIONAL_INERTIA),
            motor_max_velocity: Scalar::from_bits(DEFAULT_MOTOR_MAX_VELOCITY),
            motor_max_torque: Scalar::from_bits(DEFAULT_MOTOR_MAX_TORQUE),
            gearing: Scalar::from_bits(DEFAULT_GEARING),
            wheel_radius: Scalar::from_bits(DEFAULT_WHEEL_RADIUS),
            bumper_width: Scalar::from_bits(DEFAULT_BUMPER_SIDE),
            bumper_length: Scalar::from_bits(DEFAULT_BUMPER_SIDE),
            wheelbase: Scalar::from_bits(DEFAULT_WHEEL_SPACING),
            trackwidth: Scalar::from_bits(DEFAULT_WHEEL_SPACING),
        }
    }
}

} // verus!
