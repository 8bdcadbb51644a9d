use board::alarm::{combine_counter, compare_value, AlarmAction, Alarms, ALARM_COUNT};
use board::display::animation::{Bounce, MAX_X, MAX_Y};

#[test]
fn counter_halves_combine_when_stable() {
    assert_eq!(combine_counter(1, 5, 1), Some(0x1_0000_0005));
    assert_eq!(combine_counter(1, 0xFFFF_FFFF, 2), None);
    assert_eq!(compare_value(0x7_0000_0123), 0x123);
}

#[test]
fn alarms_allocate_each_slot_once() {
    let mut alarms = Alarms::new();
    for i in 0..ALARM_COUNT {
        assert_eq!(alarms.allocate_alarm(), Some(i));
    }
    assert_eq!(alarms.allocate_alarm(), None);
}

#[test]
fn alarm_in_the_past_is_not_armed() {
    let mut alarms = Alarms::new();
    assert!(!alarms.set_alarm(0, 100, 100));
    assert_eq!(alarms.check_alarm(0, 50), AlarmAction::Rearm(0xFFFF_FFFF));
    assert!(alarms.set_alarm(1, 200, 100));
    assert_eq!(alarms.check_alarm(1, 150), AlarmAction::Rearm(200));
    assert_eq!(alarms.check_alarm(1, 200), AlarmAction::Fire);
    assert_eq!(alarms.check_alarm(1, 300), AlarmAction::Rearm(0xFFFF_FFFF));
}

#[test]
fn far_alarm_rearms_low_half() {
    let mut alarms = Alarms::new();
    assert!(alarms.set_alarm(2, 0x1_0000_0010, 5));
    assert_eq!(alarms.check_alarm(2, 0x20), AlarmAction::Rearm(0x10));
}

#[test]
fn bounce_turns_at_edges() {
    let mut b = Bounce::new(0, 10);
    let mut bounces = 0;
    for _ in 0..1000 {
        if b.step() {
            bounces += 1;
        }
        assert!(b.x <= MAX_X && b.y <= MAX_Y);
    }
    assert_eq!(b.bounces, bounces);
    let mut c = Bounce::new(MAX_X - 1, 0);
    assert!(c.step());
    assert_eq!((c.x, c.y, c.right, c.down), (MAX_X, 1, false, true));
}
