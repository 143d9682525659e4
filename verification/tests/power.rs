use riddle::diary::Diary;
use riddle::power::{Suspend, SuspendStep, ATTEMPTS};

#[test]
fn a_press_sends_the_diary_to_sleep() {
    let d = Diary::open(100);
    assert!(d.power_pressed(true, 100));
    assert!(!d.power_pressed(false, 100));
    assert!(!d.power_pressed(true, 99));
}

#[test]
fn the_press_that_woke_it_does_not() {
    let mut d = Diary::open(100);
    d.woken(5000);
    assert!(!d.power_pressed(true, 5000));
    assert!(!d.power_pressed(true, 7999));
    assert!(d.power_pressed(true, 8000));
}

#[test]
fn sleep_is_tried_eight_times() {
    let mut s = Suspend::begin(3, 0);
    for n in 0..ATTEMPTS {
        let t = 10_000 * n as u64;
        s.attempted(t);
        assert_eq!(s.attempts, n + 1);
        assert_eq!(s.next(t + 5999), SuspendStep::Wait);
        let last = if n + 1 < 8 { SuspendStep::Retry } else { SuspendStep::GiveUp };
        assert_eq!(s.next(t + 6000), last);
    }
}

#[test]
fn a_counted_sleep_ends_the_struggle() {
    let s = Suspend::begin(3, 0);
    assert!(!s.slept(3));
    assert!(!s.slept(2));
    assert!(s.slept(4));
}
