use esprobe::safety::ReleasedSwdState;

#[test]
fn low_swdio_never_permits_a_high_drive() {
    assert!(!ReleasedSwdState::from_levels(false, false).permits_high_drive());
    assert!(!ReleasedSwdState::from_levels(false, true).permits_high_drive());
}

#[test]
fn reset_default_levels_are_distinguished_from_an_unexpected_clock() {
    assert_eq!(
        ReleasedSwdState::from_levels(true, false),
        ReleasedSwdState::ResetDefaults
    );
    assert_eq!(
        ReleasedSwdState::from_levels(true, true),
        ReleasedSwdState::ClockUnexpectedHigh
    );
    assert!(ReleasedSwdState::ResetDefaults.permits_high_drive());
}
