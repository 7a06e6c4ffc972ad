use timer_ship::queue::Timers;
use timer_ship::store::TimerData;
use timer_ship::timer::Timer;

fn ids(v: &[Timer]) -> Vec<u128> {
    v.iter().map(|t| t.id).collect()
}

#[test]
fn queue_keeps_deadline_order() {
    let mut q = Timers::new();
    assert!(q.is_empty());
    q.add_timer(Timer::with_id(300, 3));
    q.add_timer(Timer::with_id(100, 1));
    q.add_timer(Timer::with_id(200, 2));
    assert_eq!(q.timer_count(), 3);
    assert_eq!(q.peek_timer(), Some(Timer::with_id(100, 1)));
    assert_eq!(ids(&q.get_all_timers()), vec![1, 2, 3]);
    assert_eq!(q.pop_timer(), Some(Timer::with_id(100, 1)));
    assert_eq!(q.pop_timer(), Some(Timer::with_id(200, 2)));
    assert_eq!(q.pop_timer(), Some(Timer::with_id(300, 3)));
    assert_eq!(q.pop_timer(), None);
    assert!(q.is_empty());
}

#[test]
fn queue_breaks_ties_by_identifier() {
    let mut q = Timers::new();
    q.add_timer(Timer::with_id(50, 9));
    q.add_timer(Timer::with_id(50, 4));
    q.add_timer(Timer::with_id(50, 7));
    assert_eq!(ids(&q.get_all_timers()), vec![4, 7, 9]);
    assert_eq!(q.peek_timer().unwrap().id, 4);
}

#[test]
fn queue_remove_by_identifier() {
    let mut q = Timers::new();
    q.add_timer(Timer::with_id(10, 1));
    q.add_timer(Timer::with_id(20, 2));
    q.add_timer(Timer::with_id(30, 3));
    q.remove_timer(2);
    assert_eq!(ids(&q.get_all_timers()), vec![1, 3]);
    q.remove_timer(42);
    assert_eq!(q.timer_count(), 2);
    q.remove_timer(1);
    assert_eq!(q.peek_timer(), Some(Timer::with_id(30, 3)));
}

#[test]
fn queue_replaces_a_timer_with_the_same_identifier() {
    let mut q = Timers::new();
    q.add_timer(Timer::with_id(10, 1));
    q.add_timer(Timer::with_id(20, 2));
    q.add_timer(Timer::with_id(30, 1));
    assert_eq!(q.timer_count(), 2);
    assert_eq!(q.get_all_timers(), vec![Timer::with_id(20, 2), Timer::with_id(30, 1)]);
}

#[test]
fn queue_default_is_empty() {
    let q = Timers::default();
    assert_eq!(q.timer_count(), 0);
    assert_eq!(q.peek_timer(), None);
}

#[test]
fn timer_expiry_and_time_left() {
    let t = Timer::with_id(1000, 5);
    assert!(!t.is_expired(999));
    assert!(t.is_expired(1000));
    assert!(t.is_expired(5000));
    assert_eq!(t.get_time_left(400), 600);
    assert_eq!(t.get_time_left(1000), 0);
    assert_eq!(t.get_time_left(2000), 0);
    assert!(Timer::with_id(1, 9).precedes(&Timer::with_id(2, 1)));
    assert!(Timer::with_id(2, 1).precedes(&Timer::with_id(2, 3)));
    assert!(!Timer::with_id(2, 3).precedes(&Timer::with_id(2, 3)));
}

#[test]
fn new_timers_get_fresh_identifiers() {
    let a = Timer::new(10);
    let b = Timer::new(10);
    assert_eq!(a.expires_at, 10);
    assert_ne!(a.id, b.id);
}

#[test]
fn store_put_take_get() {
    let mut d = TimerData::new();
    d.add_data(1, "one".to_string());
    d.add_data(2, "two".to_string());
    assert_eq!(d.data_count(), 2);
    assert_eq!(d.get_data(1), Some("one".to_string()));
    assert_eq!(d.get_data(3), None);
    d.add_data(1, "uno".to_string());
    assert_eq!(d.data_count(), 2);
    assert_eq!(d.remove_data(1), Some("uno".to_string()));
    assert_eq!(d.remove_data(1), None);
    assert_eq!(d.data_count(), 1);
    assert_eq!(TimerData::default().data_count(), 0);
}
