use esprobe::rtt::{
    after_round, channel, choose_channels, idle_line, is_chosen, no_control_block, AfterRound,
};

#[test]
fn every_channel_is_streamed_unless_one_is_named() {
    let numbers = vec![0, 1, 4];
    assert_eq!(choose_channels(&numbers, None), [0, 1, 4]);
    assert_eq!(choose_channels(&numbers, Some(4)), [4]);
    assert!(choose_channels(&numbers, Some(2)).is_empty());
    assert!(is_chosen(&vec![4], 4));
    assert!(!is_chosen(&vec![4], 1));
    assert_eq!(
        channel(1, "\"Terminal\"", 1024, &vec![4]),
        "channel 1 \"Terminal\" buffer=1024 bytes (skipped)"
    );
    assert_eq!(
        channel(4, "\"(unnamed)\"", 16, &vec![4]),
        "channel 4 \"(unnamed)\" buffer=16 bytes"
    );
}

#[test]
fn a_session_stops_when_it_has_been_idle() {
    assert_eq!(after_round(true, Some(5), 1_000), AfterRound::Again);
    assert_eq!(after_round(false, Some(5), 4), AfterRound::Pause);
    assert_eq!(after_round(false, Some(5), 5), AfterRound::Stop);
    assert_eq!(after_round(false, None, u64::MAX), AfterRound::Pause);
    assert_eq!(idle_line(500, 42), "\nidle for 500 ms; 42 bytes read");
}

#[test]
fn a_missing_control_block_is_told() {
    assert_eq!(
        no_control_block(Some(0x2000_0000), 3),
        "no RTT control block at 0x20000000"
    );
    assert_eq!(
        no_control_block(None, 3),
        "no RTT control block found in the 3 RAM regions probe-rs knows for this target; pass \
         --control-block if the firmware places it somewhere unusual"
    );
}
