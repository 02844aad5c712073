use choreo_core::robotconfig::ChoreoRobotConfig;

#[test]
fn default_configuration() {
    let c = ChoreoRobotConfig::default();
    assert_eq!(f64::from_bits(c.mass.to_bits()), 74.088);
    assert_eq!(f64::from_bits(c.rotational_inertia.to_bits()), 6.0);
    assert_eq!(f64::from_bits(c.bumper_width.to_bits()), 0.876);
    assert_eq!(f64::from_bits(c.bumper_length.to_bits()), 0.876);
    assert_eq!(f64::from_bits(c.wheelbase.to_bits()), 0.578);
    assert_eq!(f64::from_bits(c.trackwidth.to_bits()), 0.578);
    assert_eq!(f64::from_bits(c.motor_max_torque.to_bits()), 1.162);
    assert_eq!(f64::from_bits(c.motor_max_velocity.to_bits()), 4800.0);
    assert_eq!(f64::from_bits(c.gearing.to_bits()), 6.75);
    assert_eq!(f64::from_bits(c.wheel_radius.to_bits()), 0.050799972568014815);
}
