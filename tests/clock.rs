use hexbreak::daytime::{Daytime, MAX_TICKS};
use hexbreak::timer::{NextRingTimer, RING_TIMER_MULTIPLIER, START_RING_TIMER_MS};

#[test]
fn ring_timer_countdown_multiplies_on_each_expiry() {
    let mut t = NextRingTimer::new(1_000, 3);
    let mut expected: u64 = 1_000;
    for _ in 0..10 {
        assert_eq!(t.duration(), expected);
        assert!(!t.update(expected - 1));
        assert_eq!(t.remaining(), 1);
        assert!(t.update(1));
        expected *= 3;
        assert_eq!(t.duration(), expected);
        assert_eq!(t.remaining(), expected);
    }
}

#[test]
fn ring_timer_default_and_overshoot() {
    let mut t = NextRingTimer::default();
    assert_eq!(t.duration(), START_RING_TIMER_MS);
    assert_eq!(t.percent_left(), 100);
    assert!(!t.update(START_RING_TIMER_MS / 4));
    assert_eq!(t.percent_left(), 75);
    assert!(t.update(u64::MAX));
    assert_eq!(t.duration(), START_RING_TIMER_MS * RING_TIMER_MULTIPLIER);
}

#[test]
fn ring_timer_saturates() {
    let mut t = NextRingTimer::new(u64::MAX / 2 + 1, 2);
    assert!(t.update(u64::MAX));
    assert_eq!(t.duration(), u64::MAX);
    assert!(t.update(u64::MAX));
    assert_eq!(t.duration(), u64::MAX);
}

#[test]
fn daytime_wraps_into_days() {
    let mut d = Daytime::new();
    assert_eq!(d.day(), 1);
    d.add(61);
    assert_eq!(d.get_hours(), 1);
    assert_eq!(d.get_minutes(), 1);
    d.add(MAX_TICKS - 61);
    assert_eq!(d.day(), 2);
    assert_eq!(d.get_hours(), 0);
    assert_eq!(d.get_minutes(), 0);
    d.add(3 * MAX_TICKS + 125);
    assert_eq!(d.day(), 5);
    assert_eq!(d.get_hours(), 2);
    assert_eq!(d.get_minutes(), 5);
}

#[test]
fn daytime_advance_runs_one_tick() {
    let mut d = Daytime::new();
    assert_eq!(d.advance().len(), 1);
    assert_eq!(d.get_minutes(), 1);
}
