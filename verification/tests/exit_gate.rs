//! Releases of device memory against the exit of the process.

use lfm2_moe::exit::{begin_release, process_exiting, ExitGate, ExitWait};

#[test]
fn a_release_after_exit_is_refused_and_counts_itself_back_out() {
    let mut gate = ExitGate::new();
    assert_eq!(gate.mark_exiting(true), ExitWait::Finished);
    assert!(gate.begin_release().is_none());
    assert_eq!(gate.in_flight(), 0);
}

#[test]
fn exit_gives_up_on_a_stuck_release_at_the_deadline() {
    let mut gate = ExitGate::new();
    let release = gate.begin_release().expect("admitted before exit");
    for _ in 0..100 {
        assert_eq!(gate.mark_exiting(false), ExitWait::Waiting);
    }
    assert_eq!(gate.mark_exiting(true), ExitWait::GaveUp);
    gate.end_release(release);
    assert_eq!(gate.mark_exiting(true), ExitWait::Finished);
}

#[test]
fn exit_waits_until_a_release_let_in_before_it_is_over() {
    let mut gate = ExitGate::new();
    let release = begin_release(&mut gate).expect("admitted before exit");
    assert!(!process_exiting(&gate));
    assert_eq!(gate.mark_exiting(false), ExitWait::Waiting);
    assert!(process_exiting(&gate));
    assert!(begin_release(&mut gate).is_none());
    assert_eq!(gate.in_flight(), 1);
    gate.end_release(release);
    assert_eq!(gate.mark_exiting(false), ExitWait::Finished);
}

#[test]
fn the_exit_is_for_good_and_the_count_follows_the_releases() {
    let mut gate = ExitGate::new();
    let mut open = Vec::new();
    for n in 1..=5 {
        open.push(gate.begin_release().expect("admitted before exit"));
        assert_eq!(gate.in_flight(), n);
    }
    gate.end_release(open.pop().unwrap());
    assert_eq!((gate.in_flight(), gate.is_exiting()), (4, false));
    gate.mark_exiting(false);
    while let Some(release) = open.pop() {
        assert!(gate.begin_release().is_none());
        gate.end_release(release);
        assert_eq!((gate.in_flight(), gate.is_exiting()), (open.len(), true));
    }
    assert_eq!(gate.mark_exiting(false), ExitWait::Finished);
    assert!(gate.begin_release().is_none());
}

#[test]
fn nested_releases_are_all_waited_for() {
    let mut gate = ExitGate::new();
    let outer = gate.begin_release().expect("outer admitted");
    let inner = gate.begin_release().expect("inner admitted");
    assert_eq!(gate.mark_exiting(false), ExitWait::Waiting);
    gate.end_release(inner);
    assert_eq!(gate.mark_exiting(false), ExitWait::Waiting);
    gate.end_release(outer);
    assert_eq!(gate.mark_exiting(false), ExitWait::Finished);
}
