use cord::streams::{runs_at, Interrupt, TakeFor};
use std::time::Duration;

#[test]
fn interrupt_ends_attached_streams() {
    let i = Interrupt::new();
    let s = i.attach(vec![1, 2, 3]);
    assert!(!s.is_interrupted());
    i.now();
    assert!(s.is_interrupted());
    assert_eq!(s.stream, vec![1, 2, 3]);
}

#[test]
fn take_for_runs_until_its_duration() {
    let hour = Duration::from_secs(3600).as_nanos();
    let t = TakeFor::new((), hour);
    assert_eq!(t.duration, hour);
    let (running, elapsed) = t.is_running();
    assert!(running);
    assert!(elapsed < hour);
    let t = TakeFor::new((), 0);
    assert_eq!(t.duration, 0);
    assert!(!t.is_running().0);
}

#[test]
fn runs_while_less_than_its_duration_has_passed() {
    assert!(runs_at(0, 1));
    assert!(runs_at(999, 1000));
    assert!(!runs_at(1000, 1000));
    assert!(!runs_at(1001, 1000));
    assert!(!runs_at(0, 0));
}
