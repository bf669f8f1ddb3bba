use lieui::animation::{tick, Animation, TimerRegistry};

#[test]
fn timers_fire_when_due_and_reschedule() {
    let mut reg = TimerRegistry::new();
    let a = Animation::new(&mut reg, 100, 0);
    let b = Animation::new(&mut reg, 30, 0);
    assert_eq!(a.timer_id(), 1);
    assert_eq!(b.timer_id(), 2);
    let r = tick(&mut reg, 10);
    assert!(!r.any_fired());
    assert_eq!(r.next, Some(30));
    let r = tick(&mut reg, 30);
    assert_eq!(r.fired, vec![2]);
    assert_eq!(r.next, Some(60));
    let r = tick(&mut reg, 100);
    assert_eq!(r.fired, vec![1, 2]);
    assert_eq!(r.next, Some(130));
    assert!(b.cancel(&mut reg));
    let r = tick(&mut reg, 130);
    assert!(r.fired.is_empty());
    assert_eq!(r.next, Some(200));
    assert!(a.cancel(&mut reg));
    let r = tick(&mut reg, 500);
    assert_eq!(r.next, None);
    assert_eq!(reg.len(), 0);
}

#[test]
fn unregister_unknown_timer_reports_absence() {
    let mut reg = TimerRegistry::new();
    assert!(!reg.unregister(9));
    let id = reg.register(5, 0);
    assert!(reg.unregister(id));
    assert!(!reg.unregister(id));
}
