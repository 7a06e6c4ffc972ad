//! Replaying log records into the timer queue and the payload store.

use vstd::prelude::*;
use crate::oplog::{apply_operation, replay_onto, LogEntry, LogOperation, TimerState};
use crate::queue::Timers;
use crate::store::TimerData;

verus! {

/// The pending timers that a queue and a store hold together.
pub open spec fn joined(timers: Map<u128, u64>, data: Map<u128, String>) -> TimerState {
    Map::new(|id: u128| timers.contains_key(id), |id: u128| (timers[id], data[id]))
}

/// A well-formed queue and a store that hold payloads for exactly its timers.
pub open spec fn consistent(timers: &Timers, timer_data: &TimerData) -> bool {
    &&& timers.wf()
    &&& timers@.dom() == timer_data@.dom()
}

/// What removing `id` from `state` hands back: its payload, if it is pending.
pub open spec fn removed_payload(state: TimerState, id: u128) -> Option<String> {
    if state.contains_key(id) {
        Some(state[id].1)
    } else {
        None
    }
}

/// Applies one operation: a set stores the payload and then queues the
/// timer; a remove unqueues the timer and then takes its payload, which it
/// returns.
pub fn apply_operation_to(op: &LogOperation, timers: &mut Timers, timer_data: &mut TimerData) -> (r:
    Option<String>)
    requires
        consistent(old(timers), old(timer_data)),
    ensures
        consistent(final(timers), final(timer_data)),
        joined(final(timers)@, final(timer_data)@) == apply_operation(
            joined(old(timers)@, old(timer_data)@),
            *op,
        ),
        op is RemoveTimer ==> r == removed_payload(
            joined(old(timers)@, old(timer_data)@),
            op->RemoveTimer_timer_id,
        ),
{
    let ghost before = joined(timers@, timer_data@);
    match op {
        LogOperation::SetTimer { timer_id, expires_at, data } => {
            timer_data.add_data(*timer_id, data.clone());
            timers.add_timer(crate::timer::Timer::with_id(*expires_at, *timer_id));
            assert(joined(timers@, timer_data@) =~= before.insert(
                *timer_id,
                (*expires_at, *data),
            ));
            None
        },
        LogOperation::RemoveTimer { timer_id } => {
            timers.remove_timer(*timer_id);
            let r = timer_data.remove_data(*timer_id);
            assert(joined(timers@, timer_data@) =~= before.remove(*timer_id));
            r
        },
    }
}

/// Replays `entries` in order onto the queue and the store.
pub fn replay_entries(entries: &Vec<LogEntry>, timers: &mut Timers, timer_data: &mut TimerData)
    requires
        consistent(old(timers), old(timer_data)),
    ensures
        consistent(final(timers), final(timer_data)),
        joined(final(timers)@, final(timer_data)@) == replay_onto(
            joined(old(timers)@, old(timer_data)@),
            entries@,
        ),
{
    let ghost start = joined(timers@, timer_data@);
    let mut i: usize = 0;
    proof {
        assert(entries@.subrange(0, 0) =~= Seq::<LogEntry>::empty());
    }
    while i < entries.len()
        invariant
            i <= entries@.len(),
            consistent(timers, timer_data),
            joined(timers@, timer_data@) == replay_onto(start, entries@.subrange(0, i as int)),
        decreases entries@.len() - i,
    {
        proof {
            let next = entries@.subrange(0, i + 1);
            assert(next.drop_last() =~= entries@.subrange(0, i as int));
            assert(next.last() == entries@[i as int]);
        }
        apply_operation_to(&entries[i].operation, timers, timer_data);
        i = i + 1;
    }
    assert(entries@.subrange(0, i as int) =~= entries@);
}

/// Rebuilds the pending timers from the records read from a log.
pub struct RecoveryManager {
    entries: Vec<LogEntry>,
}

impl RecoveryManager {
    pub closed spec fn records(&self) -> Seq<LogEntry> {
        self.entries@
    }

    pub fn new(entries: Vec<LogEntry>) -> (r: RecoveryManager)
        ensures
            r.records() == entries@,
    {
        RecoveryManager { entries }
    }

    /// Replays every record, in the order in which it was appended.
    pub fn recover_from_logs(&self, timers: &mut Timers, timer_data: &mut TimerData)
        requires
            consistent(old(timers), old(timer_data)),
        ensures
            consistent(final(timers), final(timer_data)),
            joined(final(timers)@, final(timer_data)@) == replay_onto(
                joined(old(timers)@, old(timer_data)@),
                self.records(),
            ),
    {
        replay_entries(&self.entries, timers, timer_data);
    }
}

} // verus!
