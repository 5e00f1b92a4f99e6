use esprobe::http::{
    check_frame, check_image, check_length, configure, displayed, done, fail, flashed, health, hold,
    jog, move_by, probed, read_body, refuse, selftest, status, stop, target_error,
};
use esprobe::hub::TargetError;
use esprobe::stepper::{Planner, StepMode, MAX_ACCEL_STEPS_PER_S2};
use esprobe::stm32g0::Error as DeviceError;
use esprobe::swd::Error as WireError;

fn planner() -> Planner {
    Planner::new(StepMode::Half)
}

#[test]
fn the_status_document_tells_how_the_motor_is() {
    let mut p = planner();
    assert_eq!(
        status(&p).body,
        "{\"ok\":true,\"position\":0,\"steps_per_s\":0,\"moving\":false,\"remaining\":null,\
         \"max_steps_per_s\":1000,\"accel\":200000,\"min_accel\":100,\"max_accel\":200000}\n"
    );
    p.move_by(-40, 20, 0);
    let body = status(&p).body;
    assert!(body.contains("\"remaining\":40,"), "{body}");
    assert!(body.contains("\"moving\":true,"), "{body}");
}

#[test]
fn a_jog_names_its_rate() {
    let mut p = planner();
    let answer = jog(&mut p, "{\"steps_per_s\":-250}", 0);
    assert_eq!(answer.status, 200);
    assert_eq!(p.target_rate(), -250);
    assert_eq!(answer.body, format!("{{\"ok\":true,\"steps_per_s\":{}}}\n", p.rate()));
    let refused = jog(&mut p, "{}", 0);
    assert_eq!(refused.status, 400);
    assert_eq!(refused.body, "expected {\"steps_per_s\":<integer>}\n");
    assert_eq!(p.target_rate(), -250);
}

#[test]
fn a_posted_jog_that_was_overtaken_is_dropped() {
    let mut p = planner();
    jog(&mut p, "{\"steps_per_s\":600,\"seq\":10}", 0);
    assert!(p.is_moving());
    stop(&mut p, false, "{\"seq\":11}", 1_000);
    assert!(!p.is_moving());
    assert_eq!(jog(&mut p, "{\"steps_per_s\":600,\"seq\":10}", 2_000).status, 200);
    assert!(!p.is_moving(), "a stale jog restarted a stopped motor");
    move_by(&mut p, "{\"steps\":5,\"seq\":11}", 2_000);
    assert!(!p.is_moving(), "a stale move restarted a stopped motor");
    // A command without a sequence is always obeyed.
    jog(&mut p, "{\"steps_per_s\":600}", 3_000);
    assert!(p.is_moving());
}

#[test]
fn a_move_without_a_rate_has_a_default_one() {
    let mut p = planner();
    let answer = move_by(&mut p, "{\"steps\":12}", 0);
    assert_eq!(answer.body, "{\"ok\":true,\"steps\":12}\n");
    assert_eq!(p.target_rate(), 300);
    assert_eq!(p.remaining(), Some(12));
    move_by(&mut p, "{\"steps\":12,\"steps_per_s\":-5}", 0);
    assert!(!p.is_moving(), "a move at a negative rate is no move");
    assert_eq!(move_by(&mut p, "{\"step\":1}", 0).status, 400);
}

#[test]
fn a_hold_is_bounded_and_says_so() {
    let mut p = planner();
    let answer = hold(&mut p, "{\"state\":2,\"seconds\":60}", 0);
    assert_eq!(answer.body, "{\"ok\":true,\"state\":2,\"seconds\":10}\n");
    assert!(p.is_energised());
    assert_eq!(
        hold(&mut p, "", 0).body,
        "{\"ok\":true,\"state\":0,\"seconds\":3}\n"
    );
    for body in ["{\"state\":8}", "{\"state\":-1}", "{\"seconds\":0}"] {
        let refused = hold(&mut p, body, 0);
        assert_eq!(refused.status, 400);
        assert_eq!(
            refused.body,
            "expected {\"state\":0..=7,\"seconds\":<positive integer>}\n"
        );
    }
}

#[test]
fn the_acceleration_is_clamped_by_the_planner() {
    let mut p = planner();
    assert_eq!(configure(&mut p, "{\"accel\":1}").body, "{\"ok\":true,\"accel\":100}\n");
    assert_eq!(
        configure(&mut p, "{\"accel\":2000000}").body,
        format!("{{\"ok\":true,\"accel\":{MAX_ACCEL_STEPS_PER_S2}}}\n")
    );
    let refused = configure(&mut p, "{}");
    assert_eq!(refused.status, 400);
    assert_eq!(refused.body, "{\"ok\":false,\"error\":\"expected an accel field\"}\n");
}

#[test]
fn a_release_drops_the_windings_and_a_stop_holds() {
    let mut p = planner();
    p.jog(200, 0);
    p.poll(0);
    assert_eq!(stop(&mut p, false, "", 10).body, "{\"ok\":true}\n");
    assert!(p.is_energised());
    assert_eq!(stop(&mut p, true, "", 20).body, done().body);
    assert!(!p.is_energised());
}

#[test]
fn a_body_is_short_and_text() {
    assert_eq!(read_body(b"{}").unwrap(), "{}");
    assert_eq!(read_body(&[b' '; 128]).unwrap().len(), 128);
    assert_eq!(
        read_body(&[b' '; 129]).unwrap_err(),
        "body must be at most 128 bytes"
    );
    assert!(check_length(128).is_ok());
    assert!(check_length(129).is_err());
    assert_eq!(
        read_body(&[b'a', 0xff]).unwrap_err(),
        String::from_utf8(vec![b'a', 0xff]).unwrap_err().to_string()
    );
    assert_eq!(refuse("no").body, "no\n");
    assert_eq!(refuse("no").status, 400);
}

#[test]
fn the_self_test_reports_every_pin() {
    let answer = selftest(Some(0b11_11_01_11), [7, 6, 0, 5]);
    assert_eq!(answer.status, 200);
    assert_eq!(
        answer.body,
        "{\"ok\":true,\"pins\":[\
         {\"name\":\"ain1\",\"gpio\":7,\"drove_high\":true,\"drove_low\":true},\
         {\"name\":\"ain2\",\"gpio\":6,\"drove_high\":true,\"drove_low\":false},\
         {\"name\":\"bin1\",\"gpio\":0,\"drove_high\":true,\"drove_low\":true},\
         {\"name\":\"bin2\",\"gpio\":5,\"drove_high\":true,\"drove_low\":true}\
         ],\"all_pins_drive\":false}\n"
    );
    assert!(selftest(Some(255), [7, 6, 0, 5]).body.ends_with("\"all_pins_drive\":true}\n"));
    let late = selftest(None, [7, 6, 0, 5]);
    assert_eq!(late.status, 503);
    assert_eq!(
        late.body,
        "{\"ok\":false,\"error\":\"the stepper timer did not answer\"}\n"
    );
}

#[test]
fn health_quotes_whatever_the_network_is_called() {
    let answer = health(Some(("guest\"net", [192, 0, 2, 10])));
    assert_eq!(answer.status, 200);
    assert_eq!(
        answer.body,
        "{\"ok\":true,\"service\":\"esprobe\",\"ip\":\"192.0.2.10\",\"ssid\":\"guest\\\"net\"}\n"
    );
    let lost = health(None);
    assert_eq!(lost.status, 503);
    assert_eq!(
        lost.body,
        "{\"ok\":false,\"service\":\"esprobe\",\"ip\":\"0.0.0.0\",\"ssid\":\"\"}\n"
    );
}

#[test]
fn targets_are_answered_with_their_identities() {
    assert_eq!(
        probed(Ok((0x0bc1_1477, 0x466))).body,
        "{\"ok\":true,\"dp_id\":\"0x0bc11477\",\"device_id\":\"0x00000466\"}\n"
    );
    assert_eq!(
        flashed(1234, Ok((0x0bc1_1477, 0x466))).body,
        "{\"ok\":true,\"bytes\":1234,\"verified\":true,\"dp_id\":\"0x0bc11477\",\
         \"device_id\":\"0x00000466\"}\n"
    );
    let failed = probed(Err("LineHeldLow"));
    assert_eq!(failed.status, 502);
    assert_eq!(failed.body, "{\"ok\":false,\"error\":\"LineHeldLow\"}\n");
    assert_eq!(fail(502, "x").body, flashed(1, Err("x")).body);
}

#[test]
fn uploads_have_their_limits() {
    assert!(check_image(1).is_none());
    assert!(check_image(65_536).is_none());
    assert_eq!(
        check_image(0).unwrap().body,
        "binary image must be 1..=65536 bytes\n"
    );
    assert_eq!(check_image(65_537).unwrap().status, 413);
    assert!(check_frame(1_024).is_none());
    assert_eq!(
        check_frame(1_025).unwrap().body,
        "display frame must be 1..=1024 bytes\n"
    );
    assert!(check_frame(0).is_some());
    assert_eq!(displayed(9).body, "{\"ok\":true,\"bytes\":9}\n");
}

#[test]
fn target_errors_are_told_by_name() {
    assert_eq!(target_error(TargetError::NoWire), "SWD engine unavailable");
    for error in [
        WireError::InvalidDpId,
        WireError::PowerTimeout,
        WireError::WaitTimeout,
        WireError::Fault,
        WireError::Protocol(7),
        WireError::Parity,
        WireError::Unaligned,
        WireError::LineHeldLow,
    ] {
        assert_eq!(target_error(TargetError::Wire(error)), format!("{error:?}"));
    }
    for error in [
        DeviceError::Transport(WireError::Protocol(3)),
        DeviceError::Empty,
        DeviceError::TooLarge,
        DeviceError::InvalidDevice(0x466),
        DeviceError::HaltTimeout,
        DeviceError::UnlockFailed,
        DeviceError::BusyTimeout,
        DeviceError::FlashStatus(0xc000),
        DeviceError::Verify {
            address: 0x0800_0000,
            expected: 1,
            observed: 2,
        },
    ] {
        assert_eq!(target_error(TargetError::Device(error)), format!("{error:?}"));
    }
}
