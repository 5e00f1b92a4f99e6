use esprobe::cycle::{ResetCycle, SwdioCycle};

#[test]
fn a_stopped_reset_cycle_lets_go_of_reset() {
    assert_eq!(ResetCycle::start(true), ResetCycle::Last);
    let mut step = ResetCycle::start(false);
    assert_eq!(step, ResetCycle::Hold);
    step = step.next(false);
    assert_eq!(step, ResetCycle::Free);
    assert_eq!(step.next(false), ResetCycle::Hold);
    // Stopped while reset is held.
    let mut seen = vec![];
    step = ResetCycle::Hold;
    while step != ResetCycle::Over {
        seen.push(step);
        step = step.next(true);
    }
    assert_eq!(seen, [ResetCycle::Hold, ResetCycle::Free, ResetCycle::Last]);
}

#[test]
fn a_stopped_swdio_cycle_lets_go_of_everything() {
    let mut step = SwdioCycle::start(false);
    assert_eq!(step, SwdioCycle::Drive(false));
    step = step.next(false);
    assert_eq!(step, SwdioCycle::Drive(true));
    assert_eq!(step.next(false), SwdioCycle::Drive(false));
    step = step.next(true);
    assert_eq!(step, SwdioCycle::Detach);
    step = step.next(true);
    assert_eq!(step, SwdioCycle::Free);
    assert_eq!(step.next(true), SwdioCycle::Over);
    assert_eq!(SwdioCycle::start(true), SwdioCycle::Detach);
}
