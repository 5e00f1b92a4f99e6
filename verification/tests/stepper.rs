use esprobe::stepper::{
    json_i32, json_i64, Coils, Planner, Sequencer, StepMode, ACCEL_STEPS_PER_S2, HOLD_AFTER_MOTION_US,
    JOG_TIMEOUT_US, LINK_JOG_TIMEOUT_US, MAX_ACCEL_STEPS_PER_S2, MAX_HOLD_US, MAX_STEPS_PER_S,
    MIN_ACCEL_STEPS_PER_S2, START_STEPS_PER_S,
};

const SEC: u64 = 1_000_000;

#[test]
fn the_bridge_truth_table_is_the_datasheet_one() {
    // 0,0 coasts. Anything else drives, and no state ever asserts both
    // inputs of one bridge — that is brake, which this never wants.
    assert!(!Coils::released().energised());
    for mode in [StepMode::Full, StepMode::Half] {
        let mut seq = Sequencer::new(mode);
        for _ in 0..mode.states() {
            let c = seq.advance(true);
            assert!(!(c.ain1 && c.ain2), "coil A braked in {mode:?}");
            assert!(!(c.bin1 && c.bin2), "coil B braked in {mode:?}");
            assert!(c.energised(), "a drive state with no current in {mode:?}");
        }
    }
}

#[test]
fn a_full_revolution_of_the_sequence_returns_to_where_it_started() {
    for mode in [StepMode::Full, StepMode::Half] {
        let mut seq = Sequencer::new(mode);
        let start = seq.coils();
        for _ in 0..mode.states() {
            seq.advance(true);
        }
        assert_eq!(seq.coils(), start, "{mode:?} did not close the cycle");
    }
}

#[test]
fn stepping_back_undoes_stepping_forward() {
    for mode in [StepMode::Full, StepMode::Half] {
        let mut seq = Sequencer::new(mode);
        let start = seq.coils();
        // Past the wrap in both directions, so the modular arithmetic is
        // exercised rather than just the middle of the table.
        for _ in 0..(mode.states() * 3 + 1) {
            seq.advance(true);
        }
        for _ in 0..(mode.states() * 3 + 1) {
            seq.advance(false);
        }
        assert_eq!(seq.coils(), start, "{mode:?} is not reversible");
    }
}

#[test]
fn half_stepping_alternates_one_winding_and_two() {
    let mut seq = Sequencer::new(StepMode::Half);
    let mut energised: Vec<usize> = Vec::new();
    for _ in 0..8 {
        let c = seq.advance(true);
        energised.push(usize::from(c.ain1 || c.ain2) + usize::from(c.bin1 || c.bin2));
    }
    // That alternation is the whole point of half-stepping; a table that
    // had two windings on throughout would be full-stepping with extra
    // states and none of the smoothness.
    for pair in energised.windows(2) {
        assert_ne!(pair[0], pair[1], "half-step did not alternate: {energised:?}");
    }
}

#[test]
fn a_bounded_move_stops_at_exactly_the_step_it_was_asked_for() {
    let mut p = Planner::new(StepMode::Full);
    p.move_by(10, 1_000, 0);
    let mut steps = 0;
    // Long enough to cover the ramp as well as the steps; the extra time
    // must not produce extra steps.
    for t in 0..2 * SEC {
        if p.poll(t).stepped {
            steps += 1;
        }
    }
    assert_eq!(steps, 10);
    assert_eq!(p.position(), 10);
    assert!(!p.is_moving());
}

#[test]
fn a_negative_move_goes_the_other_way_and_lands_where_it_started() {
    let mut p = Planner::new(StepMode::Half);
    p.move_by(25, 1_000, 0);
    for t in 0..2 * SEC {
        p.poll(t);
    }
    assert_eq!(p.position(), 25);
    p.move_by(-25, 1_000, 2 * SEC);
    for t in 2 * SEC..4 * SEC {
        p.poll(t);
    }
    assert_eq!(p.position(), 0, "it did not come back");
}

#[test]
fn a_move_against_the_motion_lands_where_it_was_sent() {
    let mut p = Planner::new(StepMode::Half);
    p.jog(800, 0);
    p.poll(10_000);
    assert_eq!((p.position(), p.rate()), (1, 800));
    p.move_by(-1, 800, 10_000);
    let mut furthest = p.position();
    for t in (12_000..=400_000).step_by(2_000) {
        p.poll(t);
        furthest = furthest.max(p.position());
    }
    // It braked past where it was, and came all the way back.
    assert!(furthest > 1);
    assert_eq!(p.remaining(), None);
    assert!(!p.is_moving());
    assert_eq!(p.position(), 0);
}

#[test]
fn a_default_planner_is_a_fresh_one_that_half_steps() {
    let mut p = Planner::default();
    assert_eq!(format!("{p:?}"), format!("{:?}", Planner::new(StepMode::Half)));
    // Nothing was obeyed yet, so the first number there is may be.
    assert!(!p.accept(Some(i64::MIN)));
    assert!(p.accept(Some(i64::MIN + 1)));
    assert_eq!((p.position(), p.rate(), p.remaining()), (0, 0, None));
    assert_eq!(p.accel(), ACCEL_STEPS_PER_S2);
}

#[test]
fn a_planner_at_rest_can_be_polled_at_any_time() {
    let mut p = Planner::default();
    let out = p.poll(u64::MAX);
    assert!(!out.stepped);
    assert_eq!(p.position(), 0);
}

#[test]
fn a_late_poll_takes_one_step_and_no_more() {
    let mut p = Planner::default();
    p.move_by(3, 500, 0);
    let late = u64::MAX - HOLD_AFTER_MOTION_US;
    assert!(p.poll(late).stepped);
    assert_eq!((p.position(), p.remaining()), (1, Some(2)));
    assert!(!p.poll(late).stepped);
    assert_eq!(p.position(), 1);
}

#[test]
fn a_keepalive_that_renews_nothing_takes_any_time() {
    let mut p = Planner::new(StepMode::Half);
    p.keepalive_for(u64::MAX, u64::MAX);
    assert_eq!(p.target_rate(), 0);
    p.move_by(5, 100, 0);
    p.keepalive(u64::MAX);
    assert_eq!(p.remaining(), Some(5));
}

#[test]
fn a_jog_that_is_never_refreshed_stops_itself() {
    let mut p = Planner::new(StepMode::Half);
    p.jog(500, 0);
    // Run past the deadline without refreshing, as a closed browser tab or
    // a dropped access point would.
    let mut last_step_at = 0;
    for t in 0..(2 * JOG_TIMEOUT_US) {
        if p.poll(t).stepped {
            last_step_at = t;
        }
    }
    assert!(!p.is_moving(), "the motor was still running with nobody home");
    assert!(
        last_step_at <= JOG_TIMEOUT_US,
        "it kept stepping {}us past the deadline",
        last_step_at - JOG_TIMEOUT_US
    );
}

#[test]
fn refreshing_a_jog_keeps_it_running_and_does_not_stall_it() {
    let mut p = Planner::new(StepMode::Half);
    let mut steps = 0;
    // Refresh every 5 ms, far more often than the 10 ms step interval —
    // where a refresh that pushed the next step further out than the poll
    // that would have taken it would stall the motor.
    // Two seconds, so the quarter-second ramp to 100/s is a small part of
    // it. The point of the test is that refreshing does not *stall* it.
    for t in 0..2 * SEC {
        if t % 5_000 == 0 {
            p.jog(100, t);
        }
        if p.poll(t).stepped {
            steps += 1;
        }
    }
    assert!(
        (170..=200).contains(&steps),
        "expected close to 200 steps in two seconds at 100/s, got {steps}"
    );
}

#[test]
fn it_releases_the_windings_after_holding_for_a_while() {
    let mut p = Planner::new(StepMode::Full);
    p.move_by(2, 1_000, 0);
    // Find when the move actually ends rather than assuming: with the ramp
    // starting at 50 steps/s, two steps take about forty milliseconds, and
    // a fixed wait long enough to be safe was already past the hold.
    let mut done_at = None;
    for t in 0..SEC {
        p.poll(t);
        if !p.is_moving() && done_at.is_none() {
            done_at = Some(t);
            break;
        }
    }
    let done_at = done_at.expect("the move never finished");
    // Still holding position right after the move.
    assert!(
        p.poll(done_at + 1_000).coils.energised(),
        "it let go immediately"
    );
    // And coasting once the hold time is up, because a stepper standing
    // still with its windings on is a resistor.
    let released = p.poll(done_at + HOLD_AFTER_MOTION_US + 1);
    assert_eq!(released.coils, Coils::released(), "it never let go");
}

#[test]
fn release_lets_go_without_waiting() {
    let mut p = Planner::new(StepMode::Full);
    p.move_by(5, 1_000, 0);
    for t in 0..3_000u64 {
        p.poll(t);
    }
    p.release(3_000);
    assert_eq!(p.poll(3_001).coils, Coils::released());
}

#[test]
fn the_rate_is_clamped_rather_than_believed() {
    let mut p = Planner::new(StepMode::Half);
    // The *requested* rate is what gets clamped; the rate actually being
    // stepped at is whatever the ramp has reached.
    p.jog(i32::MAX, 0);
    assert_eq!(p.target_rate(), MAX_STEPS_PER_S as i32);
    p.jog(i32::MIN, 0);
    assert_eq!(p.target_rate(), -(MAX_STEPS_PER_S as i32));
    p.move_by(10, u32::MAX, 0);
    assert_eq!(p.target_rate(), MAX_STEPS_PER_S as i32);
    // And the ramp never overshoots what was asked for.
    p.jog(MAX_STEPS_PER_S as i32, 0);
    for t in 0..10 * SEC {
        if t % 100_000 == 0 {
            p.jog(MAX_STEPS_PER_S as i32, t);
        }
        p.poll(t);
        assert!(p.rate() <= MAX_STEPS_PER_S as i32, "ramped past the cap");
    }
    assert_eq!(p.rate(), MAX_STEPS_PER_S as i32, "never reached the cap");
}

#[test]
fn a_zero_rate_jog_is_a_stop() {
    let mut p = Planner::new(StepMode::Half);
    p.jog(400, 0);
    assert!(p.is_moving());
    p.jog(0, 1_000);
    assert!(!p.is_moving(), "a dead-zone release did not stop it");
}

#[test]
fn a_diagnostic_hold_energises_then_lets_go_on_its_own() {
    let mut p = Planner::new(StepMode::Half);
    // State 0 is coil A alone, which is what isolates one bridge.
    p.hold_state(0, 3 * SEC, 0);
    let held = p.poll(1_000).coils;
    assert!(held.ain1 || held.ain2, "coil A was not energised");
    assert!(!held.bin1 && !held.bin2, "coil B should be off in state 0");
    assert!(p.poll(3 * SEC - 1).coils.energised(), "it let go early");
    assert_eq!(
        p.poll(3 * SEC + 1).coils,
        Coils::released(),
        "a diagnostic hold has to end by itself"
    );
}

#[test]
fn a_hold_cannot_be_asked_to_last_forever() {
    let mut p = Planner::new(StepMode::Half);
    // Without current limiting the winding is a resistor across the supply,
    // so an absurd request is clamped rather than honoured.
    p.hold_state(0, u64::MAX, 0);
    assert_eq!(p.poll(MAX_HOLD_US + 1).coils, Coils::released());
}

#[test]
fn the_rate_is_ramped_rather_than_jumped_to() {
    let mut p = Planner::new(StepMode::Half);
    p.jog(800, 0);
    // Asking for 800 must not produce 800 immediately: the rotor cannot
    // follow a field that jumps, and a stalled stepper is silent, which
    // looks exactly like a wiring fault.
    assert_eq!(
        p.rate(),
        START_STEPS_PER_S,
        "it should leave rest at the start rate, not at the target"
    );
    let mut reached = None;
    for t in 0..5 * SEC {
        // Refreshed, or the watchdog would stop it a third of the way up
        // the ramp and the test would be measuring that instead.
        if t % 100_000 == 0 {
            p.jog(800, t);
        }
        p.poll(t);
        if p.rate() == 800 && reached.is_none() {
            reached = Some(t);
        }
    }
    let at = reached.expect("never reached the requested rate");
    // Derived from the constant rather than written out, so retuning the
    // ramp does not fail a test that was only ever asserting arithmetic.
    let want = (800 - START_STEPS_PER_S) as u64 * 1_000_000 / ACCEL_STEPS_PER_S2 as u64;
    assert!(
        at.abs_diff(want) < want / 2 + 20_000,
        "reached full rate at {at}us, expected about {want}us"
    );
}

#[test]
fn slowing_down_is_quicker_than_speeding_up() {
    // The pad felt disconnected because letting go took as long as pushing.
    // Braking cannot make a motor slip the way accelerating can, so it is
    // not held to the same rate.
    let mut p = Planner::new(StepMode::Half);
    // Explicitly gentle. The shipping default is the ceiling, where the ramp
    // is a step change in both directions and this comparison would pass on
    // two zeroes without testing anything.
    p.set_accel(1_000);
    let mut up = None;
    for t in 0..5 * SEC {
        if t % 100_000 == 0 {
            p.jog(800, t);
        }
        p.poll(t);
        if p.rate() == 800 {
            up = Some(t);
            break;
        }
    }
    let up = up.expect("never got up to speed");

    let mut down = None;
    for t in up..up + 5 * SEC {
        if t % 100_000 == 0 {
            p.jog(100, t);
        }
        p.poll(t);
        if p.rate() == 100 {
            down = Some(t - up);
            break;
        }
    }
    let down = down.expect("never came back down");
    assert!(
        down * 2 < up,
        "took {down}us to slow down against {up}us to speed up; braking is not\n\
         meaningfully quicker, which is the thing that made the pad feel laggy"
    );
}

#[test]
fn a_flick_across_the_pad_does_not_crawl_through_the_middle() {
    // Full forward to full reverse is the worst case: it has to unwind the
    // whole rate and build it again. Under one ramp for both halves this
    // took seconds, and the motor kept going the wrong way throughout.
    let mut p = Planner::new(StepMode::Half);
    for t in 0..2 * SEC {
        if t % 100_000 == 0 {
            p.jog(800, t);
        }
        p.poll(t);
    }
    assert_eq!(p.rate(), 800, "did not reach the rate to reverse from");

    let mut crossed = None;
    for t in 2 * SEC..4 * SEC {
        if t % 100_000 == 0 {
            p.jog(-800, t);
        }
        p.poll(t);
        if p.rate() <= 0 && crossed.is_none() {
            crossed = Some(t - 2 * SEC);
        }
    }
    let crossed = crossed.expect("never stopped going forwards");
    assert!(
        crossed < 150_000,
        "took {crossed}us just to stop going forwards after a full reversal"
    );
}

#[test]
fn a_stale_jog_cannot_outlive_the_stop_that_followed_it() {
    // The pad posts a jog per rate change; on a wireless link one can still
    // be in flight when the finger lifts and land after the stop. Without
    // ordering the motor restarts and runs until the jog watchdog expires,
    // which to whoever let go is a motor that ignored them.
    let mut p = Planner::new(StepMode::Half);
    assert!(p.accept(Some(10)));
    p.jog(600, 0);
    // Inside the jog watchdog: polling past it would stop the motor for a
    // reason that has nothing to do with what is being tested.
    let lifted = JOG_TIMEOUT_US / 2;
    for t in 0..lifted {
        p.poll(t);
    }
    assert!(p.is_moving());

    // The stop is not gated, but it records its place in the sequence.
    p.observe(Some(11));
    p.stop(lifted);
    assert!(!p.is_moving());

    // The overtaken jog now arrives.
    assert!(
        !p.accept(Some(10)),
        "a jog older than the stop was accepted"
    );
    for t in lifted..lifted + JOG_TIMEOUT_US / 2 {
        p.poll(t);
    }
    assert!(!p.is_moving(), "a stale jog restarted a stopped motor");
}

#[test]
fn a_stop_is_obeyed_even_when_it_arrives_out_of_order() {
    // There is no reading of a dropped stop that leaves a motor safer, so
    // stopping never goes through the sequence gate.
    let mut p = Planner::new(StepMode::Half);
    assert!(p.accept(Some(100)));
    p.jog(600, 0);
    let lifted = JOG_TIMEOUT_US / 2;
    for t in 0..lifted {
        p.poll(t);
    }
    assert!(p.is_moving());
    p.observe(Some(5));
    p.stop(lifted);
    assert!(!p.is_moving(), "an out-of-order stop was ignored");
}

#[test]
fn commands_without_a_sequence_are_always_obeyed() {
    // curl and the CLI have no session to order.
    let mut p = Planner::new(StepMode::Half);
    assert!(p.accept(Some(1_000)));
    assert!(p.accept(None), "an unsequenced command was refused");
    assert!(p.accept(None));
    // ...and they must not raise the bar for the page that does sequence.
    assert!(p.accept(Some(1_001)), "an unsequenced command moved the sequence");
}

#[test]
fn a_sequence_number_larger_than_a_32_bit_value_survives() {
    // They are millisecond timestamps, so they left i32 behind in 1970 and
    // a narrowing parse would make every one of them collide.
    let body = r#"{"steps_per_s":120,"seq":1785000000000}"#;
    assert_eq!(json_i64(body, "seq"), Some(1_785_000_000_000));
    assert_eq!(json_i32(body, "steps_per_s"), Some(120));
    // Too large for i32 is None rather than a truncation nobody asked for.
    assert_eq!(json_i32(body, "seq"), None);
}

#[test]
fn a_keepalive_renews_a_jog_without_restarting_a_stopped_motor() {
    let mut p = Planner::new(StepMode::Half);
    p.jog(600, 0);
    // Renewed just before each deadline, it keeps going well past the point
    // an unrenewed jog would have been stopped.
    let mut t = 0;
    while t < 3 * SEC {
        t += JOG_TIMEOUT_US - 1_000;
        p.keepalive(t);
        p.poll(t);
    }
    assert!(p.is_moving(), "a renewed jog was stopped anyway");

    // ...but it is a renewal, not a start.
    p.stop(t);
    p.keepalive(t);
    for u in t..t + JOG_TIMEOUT_US {
        p.poll(u);
    }
    assert!(!p.is_moving(), "a keepalive restarted a stopped motor");
}

#[test]
fn the_link_deadline_outlives_a_network_stall_the_default_would_not() {
    // The failure this fixes, reproduced: keepalives every 150 ms on a link
    // that occasionally stalls for 600 ms. Under the default the motor
    // stops with a finger still on the pad.
    let stall_at = 300_000;
    let stall_for = 600_000;
    let run = |timeout: u64| {
        let mut p = Planner::new(StepMode::Half);
        p.jog_for(200, 0, timeout);
        let mut t = 0;
        let mut next_keepalive = 150_000;
        while t < 2 * SEC {
            t += 1_000;
            // The stall: nothing arrives for 600 ms.
            let stalled = (stall_at..stall_at + stall_for).contains(&t);
            if t >= next_keepalive && !stalled {
                p.keepalive_for(t, timeout);
                next_keepalive = t + 150_000;
            } else if stalled {
                next_keepalive = stall_at + stall_for;
            }
            p.poll(t);
        }
        p.is_moving()
    };
    assert!(!run(JOG_TIMEOUT_US), "the default survived a stall it should not");
    assert!(
        run(LINK_JOG_TIMEOUT_US),
        "the link deadline stopped the motor during a stall the socket would have survived"
    );
}

#[test]
fn a_keepalive_does_not_give_a_bounded_move_a_deadline() {
    // A move ends when it has taken its steps. Handing it a watchdog would
    // cut a long slow one short.
    let mut p = Planner::new(StepMode::Half);
    p.set_accel(1_000);
    p.move_by(40, 20, 0);
    p.keepalive(0);
    let mut t = 0;
    while t < 4 * SEC && p.remaining().is_some() {
        t += 100;
        p.poll(t);
    }
    assert_eq!(p.position(), 40, "the move did not finish");
}

#[test]
fn energised_tracks_the_windings_rather_than_the_motion() {
    let mut p = Planner::new(StepMode::Half);
    assert!(!p.is_energised());
    p.jog(200, 0);
    p.poll(0);
    assert!(p.is_energised());

    // Stopped but still holding position: not moving, still drawing current.
    p.stop(SEC);
    p.poll(SEC);
    assert!(!p.is_moving());
    assert!(p.is_energised(), "a held position should still be energised");

    // Past the hold, the windings go.
    p.poll(SEC + HOLD_AFTER_MOTION_US);
    assert!(!p.is_energised());
}

#[test]
fn the_acceleration_can_be_retuned_and_is_clamped() {
    let mut p = Planner::new(StepMode::Half);
    assert_eq!(p.accel(), ACCEL_STEPS_PER_S2);

    p.set_accel(1_000);
    assert_eq!(p.accel(), 1_000);

    // A mistyped zero must not wedge the ramp below the point where integer
    // division rounds every change to nothing.
    p.set_accel(0);
    assert_eq!(p.accel(), MIN_ACCEL_STEPS_PER_S2);
    p.set_accel(-5_000);
    assert_eq!(p.accel(), MIN_ACCEL_STEPS_PER_S2);
    p.set_accel(i32::MAX);
    assert_eq!(p.accel(), MAX_ACCEL_STEPS_PER_S2);
}

#[test]
fn a_gentler_acceleration_actually_takes_longer() {
    // The knob has to reach the ramp, not just be stored.
    let time_to_speed = |accel: i32| {
        let mut p = Planner::new(StepMode::Half);
        p.set_accel(accel);
        for t in 0..10 * SEC {
            if t % 100_000 == 0 {
                p.jog(800, t);
            }
            p.poll(t);
            if p.rate() == 800 {
                return t;
            }
        }
        panic!("never reached the rate at {accel} steps/s^2");
    };
    assert!(
        time_to_speed(500) > time_to_speed(8_000) * 4,
        "the acceleration setting is not reaching the ramp"
    );
}

#[test]
fn stopping_is_immediate_and_not_ramped_down() {
    let mut p = Planner::new(StepMode::Half);
    p.jog(600, 0);
    for t in 0..2 * SEC {
        if t % 100_000 == 0 {
            p.jog(600, t);
        }
        p.poll(t);
    }
    assert!(p.rate() > 0);
    // Everything that stops is either a deadline that expired or somebody
    // asking, and neither is a moment to keep turning through a curve.
    p.stop(2 * SEC);
    assert_eq!(p.rate(), 0);
    assert_eq!(p.target_rate(), 0);
    assert!(!p.poll(2 * SEC + 1).stepped);
}

#[test]
fn reversing_passes_through_zero_instead_of_flipping() {
    let mut p = Planner::new(StepMode::Half);
    p.jog(400, 0);
    for t in 0..2 * SEC {
        if t % 100_000 == 0 {
            p.jog(400, t);
        }
        p.poll(t);
    }
    assert!(p.rate() > 0);
    let mut seen_slow = false;
    for t in 2 * SEC..5 * SEC {
        if t % 100_000 == 0 {
            p.jog(-400, t);
        }
        p.poll(t);
        if p.rate().abs() < 40 {
            seen_slow = true;
        }
    }
    assert!(seen_slow, "the rate flipped sign without slowing down");
    assert_eq!(p.rate(), -400, "it did not reach the reversed rate");
}

#[test]
fn json_i32_reads_the_fields_the_trackpad_sends() {
    assert_eq!(json_i32(r#"{"steps_per_s":-250}"#, "steps_per_s"), Some(-250));
    assert_eq!(
        json_i32(r#"{ "steps" : 1200 , "steps_per_s": 800 }"#, "steps"),
        Some(1200)
    );
    assert_eq!(json_i32(r#"{"steps_per_s": 0}"#, "steps_per_s"), Some(0));
}

#[test]
fn a_name_that_stands_as_a_value_is_passed_over() {
    assert_eq!(
        json_i64("{\"other\" :\t\"seq\",\"seq\"\n:  -1700000000000}", "seq"),
        Some(-1_700_000_000_000)
    );
}

#[test]
fn json_i32_refuses_what_it_cannot_read() {
    assert_eq!(json_i32("{}", "steps"), None);
    assert_eq!(json_i32(r#"{"steps":}"#, "steps"), None);
    assert_eq!(json_i32(r#"{"steps":"12"}"#, "steps"), None);
    // Out of range comes back as None rather than wrapping into a rate that
    // was never asked for.
    assert_eq!(json_i32(r#"{"steps":99999999999}"#, "steps"), None);
    // A key that only appears as a value must not be mistaken for the key.
    assert_eq!(json_i32(r#"{"name":"steps"}"#, "steps"), None);
}
