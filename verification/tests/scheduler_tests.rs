use bcl_demux::scheduler::{Scheduler, UnitState, DEFAULT_CAP};

#[test]
fn default_cap_is_forty() {
    assert_eq!(DEFAULT_CAP, 40);
}

#[test]
fn unit_goes_from_pending_to_done() {
    let mut scheduler = Scheduler::new(1, 1);
    assert_eq!(scheduler.states, vec![UnitState::Pending]);
    assert_eq!(scheduler.advance(0), UnitState::Pending);
    assert_eq!(scheduler.start_next(), Some(0));
    assert_eq!(scheduler.states, vec![UnitState::Decoding]);
    assert_eq!(scheduler.active, 1);
    assert_eq!(scheduler.advance(0), UnitState::Draining);
    assert_eq!(scheduler.active, 1);
    assert!(!scheduler.is_finished());
    assert_eq!(scheduler.advance(0), UnitState::Done);
    assert_eq!(scheduler.active, 0);
    assert!(scheduler.is_finished());
    assert_eq!(scheduler.advance(0), UnitState::Done);
    assert_eq!(scheduler.active, 0);
    assert_eq!(scheduler.start_next(), None);
}

#[test]
fn no_more_units_run_than_the_cap() {
    let cap = 3;
    let units = 10;
    let mut scheduler = Scheduler::new(cap, units);
    let mut running: Vec<usize> = Vec::new();
    let mut finished = 0;
    let mut most = 0;
    while !scheduler.is_finished() {
        while let Some(unit) = scheduler.start_next() {
            running.push(unit);
        }
        let holding = scheduler
            .states
            .iter()
            .filter(|s| **s == UnitState::Decoding || **s == UnitState::Draining)
            .count();
        assert_eq!(holding, scheduler.active);
        assert!(scheduler.active <= cap);
        most = most.max(scheduler.active);
        let unit = running.remove(0);
        assert_eq!(scheduler.advance(unit), UnitState::Draining);
        assert!(scheduler.active <= cap);
        assert_eq!(scheduler.start_next(), None);
        assert_eq!(scheduler.advance(unit), UnitState::Done);
        finished += 1;
    }
    assert_eq!(finished, units);
    assert_eq!(most, cap);
    assert!(scheduler.states.iter().all(|s| *s == UnitState::Done));
}

#[test]
fn units_start_in_order() {
    let mut scheduler = Scheduler::new(2, 3);
    assert_eq!(scheduler.start_next(), Some(0));
    assert_eq!(scheduler.start_next(), Some(1));
    assert_eq!(scheduler.start_next(), None);
    scheduler.advance(1);
    scheduler.advance(1);
    assert_eq!(scheduler.start_next(), Some(2));
    assert_eq!(
        scheduler.states,
        vec![UnitState::Decoding, UnitState::Done, UnitState::Decoding]
    );
}

#[test]
fn cap_of_zero_starts_nothing() {
    let mut scheduler = Scheduler::new(0, 2);
    assert_eq!(scheduler.start_next(), None);
    assert!(!scheduler.is_finished());
}

#[test]
fn run_without_units_is_finished() {
    let mut scheduler = Scheduler::new(40, 0);
    assert!(scheduler.is_finished());
    assert_eq!(scheduler.start_next(), None);
}
