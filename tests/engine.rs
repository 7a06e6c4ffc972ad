use std::collections::HashSet;
use timer_ship::clock::{current_time_ms, epoch_millis};
use timer_ship::duration::ParseError;
use timer_ship::oplog::{LogEntry, LogOperation};
use timer_ship::queue::Timers;
use timer_ship::recovery::RecoveryManager;
use timer_ship::store::TimerData;
use timer_ship::timer_ship::{DispatchAction, ScheduleError, TimerShip, IDLE_POLL_MS};

fn copy_entry(e: &LogEntry) -> LogEntry {
    let operation = match &e.operation {
        LogOperation::SetTimer { timer_id, expires_at, data } => LogOperation::SetTimer {
            timer_id: *timer_id,
            expires_at: *expires_at,
            data: data.clone(),
        },
        LogOperation::RemoveTimer { timer_id } => LogOperation::RemoveTimer { timer_id: *timer_id },
    };
    LogEntry { timestamp: e.timestamp, operation }
}

fn recovered() -> TimerShip {
    let mut ship = TimerShip::new();
    ship.recover_from_logs(&Vec::new());
    ship
}

fn set(ship: &mut TimerShip, log: &mut Vec<LogEntry>, at: u64, data: &str) -> u128 {
    ship.set_timer_at(at, data.to_string(), |e: &LogEntry| -> Result<(), String> {
        log.push(copy_entry(e));
        Ok(())
    })
    .unwrap()
}

fn remove(ship: &mut TimerShip, log: &mut Vec<LogEntry>, id: u128) -> Option<String> {
    ship.remove_timer(id, |e: &LogEntry| -> Result<(), String> {
        log.push(copy_entry(e));
        Ok(())
    })
    .unwrap()
}

fn snapshot(ship: &TimerShip) -> Vec<(u128, u64, String)> {
    ship.list_active_timers_at(0).into_iter().map(|i| (i.id, i.expires_at, i.data)).collect()
}

#[test]
fn set_then_listed_exactly_once() {
    let mut ship = recovered();
    let mut log = Vec::new();
    set(&mut ship, &mut log, 9000, "other");
    let id = set(&mut ship, &mut log, 5000, "p");
    let infos = ship.list_active_timers_at(1000);
    let mine: Vec<_> = infos.iter().filter(|i| i.id == id).collect();
    assert_eq!(mine.len(), 1);
    assert_eq!(mine[0].expires_at, 5000);
    assert_eq!(mine[0].data, "p");
    assert_eq!(mine[0].time_left_ms, 4000);
    assert_eq!(infos[0].id, id);
    assert_eq!(log.len(), 2);
    match &log[1].operation {
        LogOperation::SetTimer { timer_id, expires_at, data } => {
            assert_eq!(*timer_id, id);
            assert_eq!(*expires_at, 5000);
            assert_eq!(data, "p");
        },
        other => panic!("unexpected {:?}", other),
    }
}

#[test]
fn listing_reports_zero_time_left_for_due_timers() {
    let mut ship = recovered();
    let mut log = Vec::new();
    let id = set(&mut ship, &mut log, 100, "due");
    let infos = ship.list_active_timers_at(500);
    assert_eq!(infos.len(), 1);
    assert_eq!(infos[0].id, id);
    assert_eq!(infos[0].time_left_ms, 0);
    let live = ship.list_active_timers();
    assert_eq!(live.len(), 1);
    assert_eq!(live[0].data, "due");
}

#[test]
fn remove_twice_second_finds_nothing() {
    let mut ship = recovered();
    let mut log = Vec::new();
    let id = set(&mut ship, &mut log, 10_000, "y");
    assert_eq!(remove(&mut ship, &mut log, id), Some("y".to_string()));
    assert_eq!(remove(&mut ship, &mut log, id), None);
    assert_eq!(ship.active_timer_count(), 0);
    assert_eq!(log.len(), 3);
    assert!(matches!(log[2].operation, LogOperation::RemoveTimer { timer_id } if timer_id == id));
}

#[test]
fn remove_scenario_drops_timer_from_listing() {
    let mut ship = recovered();
    let mut log = Vec::new();
    let j = set(&mut ship, &mut log, current_time_ms() + 10_000, "y");
    assert_eq!(remove(&mut ship, &mut log, j), Some("y".to_string()));
    assert!(ship.list_active_timers().iter().all(|i| i.id != j));
}

#[test]
fn failed_append_changes_nothing() {
    let mut ship = recovered();
    let mut log = Vec::new();
    let id = set(&mut ship, &mut log, 700, "kept");
    let before = snapshot(&ship);
    let r = ship.set_timer_at(800, "lost".to_string(), |_e: &LogEntry| -> Result<(), String> {
        Err("disk full".to_string())
    });
    assert_eq!(r, Err("disk full".to_string()));
    let r = ship.remove_timer(id, |_e: &LogEntry| -> Result<(), String> { Err("io".to_string()) });
    assert_eq!(r, Err("io".to_string()));
    assert_eq!(snapshot(&ship), before);
}

#[test]
fn duration_timer_logs_only_valid_texts() {
    let mut ship = recovered();
    let mut log: Vec<LogEntry> = Vec::new();
    let start = current_time_ms();
    let id = ship
        .set_timer_with_duration("5s", "d".to_string(), |e: &LogEntry| -> Result<(), String> {
            log.push(copy_entry(e));
            Ok(())
        })
        .unwrap();
    let infos = ship.list_active_timers_at(0);
    assert_eq!(infos.len(), 1);
    assert_eq!(infos[0].id, id);
    assert!(infos[0].expires_at >= start + 5000);
    assert!(infos[0].expires_at <= current_time_ms() + 5000);
    let r = ship.set_timer_with_duration("5 parsecs", "x".to_string(), |e: &LogEntry| -> Result<(), String> {
        log.push(copy_entry(e));
        Ok(())
    });
    assert!(matches!(r, Err(ScheduleError::Parse(ParseError::InvalidNumber(_)))));
    let r = ship.set_timer_with_duration("1s", "x".to_string(), |_e: &LogEntry| -> Result<(), String> {
        Err("io".to_string())
    });
    assert!(matches!(r, Err(ScheduleError::Log(_))));
    assert_eq!(log.len(), 1);
    assert_eq!(ship.active_timer_count(), 1);
}

#[test]
fn duration_timer_deadline_saturates() {
    let mut ship = recovered();
    let id = ship
        .set_timer_with_duration("18446744073709551615ms", "far".to_string(), |_e: &LogEntry| -> Result<(), String> {
            Ok(())
        })
        .unwrap();
    assert_eq!(ship.get_expiring_timer().unwrap().id, id);
    assert_eq!(ship.get_expiring_timer().unwrap().expires_at, u64::MAX);
}

#[test]
fn recovery_rebuilds_the_same_timers() {
    let mut a = recovered();
    let mut log = Vec::new();
    let x = set(&mut a, &mut log, 3000, "x");
    let y = set(&mut a, &mut log, 1000, "y");
    let z = set(&mut a, &mut log, 2000, "z");
    remove(&mut a, &mut log, y);
    remove(&mut a, &mut log, 12345);
    let mut b = TimerShip::new();
    assert!(!b.is_recovered());
    b.recover_from_logs(&log);
    assert!(b.is_recovered());
    assert_eq!(snapshot(&b), snapshot(&a));
    assert_eq!(snapshot(&b), vec![(z, 2000, "z".to_string()), (x, 3000, "x".to_string())]);
}

#[test]
fn recovery_replays_in_append_order() {
    let log = vec![
        LogEntry { timestamp: 1, operation: LogOperation::RemoveTimer { timer_id: 7 } },
        LogEntry {
            timestamp: 2,
            operation: LogOperation::SetTimer { timer_id: 7, expires_at: 50, data: "a".to_string() },
        },
        LogEntry {
            timestamp: 3,
            operation: LogOperation::SetTimer { timer_id: 8, expires_at: 40, data: "b".to_string() },
        },
        LogEntry { timestamp: 4, operation: LogOperation::RemoveTimer { timer_id: 8 } },
        LogEntry {
            timestamp: 5,
            operation: LogOperation::SetTimer { timer_id: 8, expires_at: 60, data: "c".to_string() },
        },
    ];
    let mut ship = TimerShip::new();
    ship.recover_from_logs(&log);
    assert_eq!(snapshot(&ship), vec![(7, 50, "a".to_string()), (8, 60, "c".to_string())]);

    let manager = RecoveryManager::new(log);
    let mut timers = Timers::new();
    let mut data = TimerData::new();
    manager.recover_from_logs(&mut timers, &mut data);
    assert_eq!(timers.timer_count(), 2);
    assert_eq!(timers.peek_timer().unwrap().id, 7);
    assert_eq!(data.get_data(8), Some("c".to_string()));
}

#[test]
fn dispatcher_expires_earliest_due_first() {
    let mut ship = recovered();
    let mut log = Vec::new();
    let later = set(&mut ship, &mut log, 200, "later");
    let earlier = set(&mut ship, &mut log, 100, "earlier");
    assert_eq!(ship.next_action(500), DispatchAction::Expire(earlier));
    assert_eq!(remove(&mut ship, &mut log, earlier), Some("earlier".to_string()));
    assert_eq!(ship.next_action(500), DispatchAction::Expire(later));
    assert_eq!(remove(&mut ship, &mut log, later), Some("later".to_string()));
    assert_eq!(ship.next_action(500), DispatchAction::Sleep(IDLE_POLL_MS));
}

#[test]
fn dispatcher_sleeps_until_the_deadline() {
    let mut fresh = TimerShip::new();
    assert_eq!(fresh.next_action(0), DispatchAction::WaitForRecovery(10));
    fresh.recover_from_logs(&Vec::new());
    assert_eq!(fresh.next_action(0), DispatchAction::Sleep(100));
    let mut log = Vec::new();
    let id = set(&mut fresh, &mut log, 1000, "t");
    assert_eq!(fresh.next_action(250), DispatchAction::Sleep(750));
    assert_eq!(fresh.next_action(1000), DispatchAction::Expire(id));
}

#[test]
fn short_timer_is_dispatched_once() {
    let mut ship = recovered();
    let mut log = Vec::new();
    let id = ship
        .set_timer_with_duration("50ms", "x".to_string(), |e: &LogEntry| -> Result<(), String> {
            log.push(copy_entry(e));
            Ok(())
        })
        .unwrap();
    let later = current_time_ms() + 150;
    let mut delivered = Vec::new();
    for _ in 0..3 {
        if let DispatchAction::Expire(due) = ship.next_action(later) {
            if let Some(payload) = remove(&mut ship, &mut log, due) {
                delivered.push(payload);
            }
        }
    }
    assert_eq!(delivered, vec!["x".to_string()]);
    assert_eq!(ship.active_timer_count(), 0);
    assert!(ship.get_expiring_timer().is_none());
    assert!(matches!(log.last().unwrap().operation, LogOperation::RemoveTimer { timer_id } if timer_id == id));
}

#[test]
fn many_sets_give_distinct_identifiers() {
    let mut ship = recovered();
    let mut log = Vec::new();
    let mut ids = HashSet::new();
    for n in 0..4u64 {
        for m in 0..25u64 {
            ids.insert(set(&mut ship, &mut log, 1000 + n * 100 + m, "t"));
        }
    }
    assert_eq!(ids.len(), 100);
    assert_eq!(ship.active_timer_count(), 100);
    assert_eq!(log.len(), 100);
    let listed: HashSet<u128> = ship.list_active_timers_at(0).iter().map(|i| i.id).collect();
    assert_eq!(listed, ids);
}

#[test]
fn set_timer_is_set_timer_at() {
    let mut ship = recovered();
    let id = ship.set_timer(42, "same".to_string(), |_e: &LogEntry| -> Result<(), String> { Ok(()) }).unwrap();
    assert_eq!(snapshot(&ship), vec![(id, 42, "same".to_string())]);
}

#[test]
fn clock_reads_a_recent_time() {
    let first = current_time_ms();
    assert!(first > 1_577_836_800_000);
    assert!(current_time_ms() >= first);
}

#[test]
fn timer_after_a_given_time_has_an_exact_deadline() {
    let mut ship = recovered();
    let mut log: Vec<LogEntry> = Vec::new();
    let id = ship
        .set_timer_after(1000, "2.5s", "a".to_string(), |e: &LogEntry| -> Result<(), String> {
            log.push(copy_entry(e));
            Ok(())
        })
        .unwrap();
    let far = ship
        .set_timer_after(u64::MAX - 10, "1s", "b".to_string(), |e: &LogEntry| -> Result<(), String> {
            log.push(copy_entry(e));
            Ok(())
        })
        .unwrap();
    assert_eq!(snapshot(&ship), vec![(id, 3500, "a".to_string()), (far, u64::MAX, "b".to_string())]);
    assert!(matches!(log[0].operation, LogOperation::SetTimer { timer_id, expires_at: 3500, .. } if timer_id == id));
    let r = ship.set_timer_after(0, "1 s", "c".to_string(), |_e: &LogEntry| -> Result<(), String> { Ok(()) });
    assert!(matches!(r, Err(ScheduleError::Parse(_))));
    let r = ship.set_timer_after(0, "1s", "c".to_string(), |_e: &LogEntry| -> Result<(), String> {
        Err("io".to_string())
    });
    assert!(matches!(r, Err(ScheduleError::Log(ref e)) if e == "io"));
    assert_eq!(ship.active_timer_count(), 2);
}

#[test]
fn clock_reading_conversion() {
    assert_eq!(epoch_millis(None), 0);
    assert_eq!(epoch_millis(Some(5)), 5);
    assert_eq!(epoch_millis(Some(u64::MAX as u128)), u64::MAX);
    assert_eq!(epoch_millis(Some(u128::MAX)), u64::MAX);
}
