use esprobe::radio::{stored_network, 
    role, station_online, stored_tx_power, strongest, sweep_power, tx_power_for, AccessPoint,
    RadioAction, RadioLoop, RadioStage, Role, AP_FALLBACK_PASSES, TX_POWER_LADDER,
};

fn network() -> Option<(String, String)> {
    Some(("bench".to_string(), "secret phrase".to_string()))
}

fn point(ssid: &str, channel: u8, signal_strength: i8) -> AccessPoint {
    AccessPoint {
        ssid: ssid.to_string(),
        bssid: [channel; 6],
        channel,
        signal_strength,
    }
}

/// One pass of a loop whose station is offline.
fn pass(radio: &mut RadioLoop, joins: bool, has_access_point: bool) -> Vec<RadioAction> {
    let mut actions = Vec::new();
    let (mut action, mut stage) = radio.start(None, false);
    loop {
        actions.push(action);
        let yes = match action {
            RadioAction::Report => return actions,
            RadioAction::AskOnline => false,
            RadioAction::Join { .. } => joins,
            RadioAction::GoBack | RadioAction::PublishAccessPoint => true,
        };
        (action, stage) = radio.next(stage, yes, has_access_point);
    }
}

#[test]
fn the_power_that_worked_goes_first() {
    assert_eq!(tx_power_for(0, Some(44)), 44);
    assert_eq!(tx_power_for(1, Some(44)), 60);
    assert_eq!(tx_power_for(0, None), 80);
    let walked: Vec<i8> = (0..10).map(|attempt| tx_power_for(attempt, None)).collect();
    assert_eq!(walked[..5], TX_POWER_LADDER);
    assert_eq!(walked[5..], TX_POWER_LADDER);
}

#[test]
fn a_stored_power_out_of_range_is_ignored() {
    assert_eq!(stored_tx_power(8), Some(8));
    assert_eq!(stored_tx_power(84), Some(84));
    assert_eq!(stored_tx_power(7), None);
    assert_eq!(stored_tx_power(85), None);
    assert_eq!(stored_tx_power(200), None);
}

#[test]
fn the_power_sweep_cycles() {
    let swept: Vec<i8> = (0..6).map(sweep_power).collect();
    assert_eq!(swept, [80, 52, 32, 20, 8, 80]);
}

#[test]
fn the_strongest_node_of_a_name_is_picked() {
    let points = vec![
        point("mesh", 1, -80),
        point("other", 6, -20),
        point("mesh", 11, -60),
        point("mesh", 3, -60),
    ];
    // The last of those that are as strong.
    assert_eq!(strongest(&points, Some("mesh")), Some(3));
    assert_eq!(strongest(&points, None), Some(1));
    assert_eq!(strongest(&points, Some("absent")), None);
    assert_eq!(strongest(&vec![], None), None);
}

#[test]
fn an_access_point_is_not_a_network() {
    assert!(station_online(true, Some([192, 0, 2, 1])));
    assert!(!station_online(true, Some([0, 0, 0, 0])));
    assert!(!station_online(true, None));
    assert!(!station_online(false, Some([192, 0, 2, 1])));
}

#[test]
fn the_access_point_is_a_fallback() {
    assert_eq!(role(true, true), Role::Station);
    assert_eq!(role(false, true), Role::AccessPoint);
    assert_eq!(role(false, false), Role::Idle);
}

#[test]
fn a_failed_ladder_publishes_the_access_point_for_a_while() {
    let mut radio = RadioLoop::new(network());
    for attempt in 0..4 {
        assert_eq!(
            pass(&mut radio, false, true),
            [
                RadioAction::AskOnline,
                RadioAction::Join { attempt },
                RadioAction::Report
            ]
        );
    }
    assert_eq!(
        pass(&mut radio, false, true),
        [
            RadioAction::AskOnline,
            RadioAction::Join { attempt: 4 },
            RadioAction::PublishAccessPoint,
            RadioAction::Report
        ]
    );
    for _ in 0..AP_FALLBACK_PASSES {
        assert_eq!(pass(&mut radio, false, true), [RadioAction::Report]);
    }
    assert_eq!(
        pass(&mut radio, true, true)[1],
        RadioAction::Join { attempt: 5 }
    );
    // A success rewinds the ladder.
    assert_eq!(radio.attempt, 0);
}

#[test]
fn without_an_access_point_there_is_no_pause() {
    let mut radio = RadioLoop::new(network());
    for attempt in 0..12 {
        assert_eq!(
            pass(&mut radio, false, false)[1],
            RadioAction::Join { attempt }
        );
    }
}

#[test]
fn a_requested_network_is_joined_from_the_top() {
    let mut radio = RadioLoop::new(None);
    radio.attempt = 7;
    radio.fallback_passes = 3;
    let (action, stage) = radio.start(network(), false);
    assert_eq!(action, RadioAction::Join { attempt: 0 });
    assert_eq!(radio.ssid(), "bench");
    let (action, _) = radio.next(stage, false, true);
    assert_eq!(action, RadioAction::Report);
    assert_eq!((radio.attempt, radio.fallback_passes), (1, 0));
}

#[test]
fn a_forgotten_network_is_not_joined() {
    let mut radio = RadioLoop::new(network());
    let (action, stage) = radio.start(None, true);
    assert_eq!(action, RadioAction::GoBack);
    let (action, stage) = radio.next(stage, false, true);
    assert_eq!(action, RadioAction::AskOnline);
    let (action, stage) = radio.next(stage, false, true);
    assert_eq!(action, RadioAction::Report);
    assert!(matches!(stage, RadioStage::Reported));
    assert_eq!(radio.ssid(), "");
}

#[test]
fn what_storage_holds_is_the_network_to_join() {
    let text = |name: &str| Some(name.to_string());
    assert_eq!(
        stored_network(text("net"), text("secret")),
        Some(("net".to_string(), "secret".to_string()))
    );
    assert_eq!(
        stored_network(text("net"), None),
        Some(("net".to_string(), String::new()))
    );
    assert_eq!(stored_network(text(""), text("secret")), None);
    assert_eq!(stored_network(None, text("secret")), None);
}
