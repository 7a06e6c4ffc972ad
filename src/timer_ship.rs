//! The timer engine: pending timers, their payloads, and the decisions of
//! the expiration dispatcher.
//!
//! Every change is logged first. `set_timer_at` and `remove_timer` build the
//! record, hand it to the caller's `append` function, and change the pending
//! timers only once `append` has succeeded; on failure nothing changes. The
//! application supplies `append` (a write and flush to the log file), runs
//! the dispatcher loop around [`TimerShip::next_action`], and guards the
//! engine with a lock.

use vstd::prelude::*;
use vstd::string::*;
use crate::clock::current_time_ms;
use crate::duration::{duration_outcome, parse_duration, ParseError};
use crate::oplog::{replay_onto, LogEntry, LogOperation, TimerState};
use crate::queue::{is_first, lists, Timers};
use crate::recovery::{
    apply_operation_to,
    consistent,
    joined,
    removed_payload,
    replay_entries,
};
use crate::store::TimerData;
use crate::text::{decimal, push_char, push_decimal};
use crate::timer::{precedes, time_left, Timer};

verus! {

/// How long the dispatcher sleeps while no timer is pending.
pub const IDLE_POLL_MS: u64 = 100;

/// How long the dispatcher sleeps between checks for recovery to finish.
pub const RECOVERY_POLL_MS: u64 = 10;

/// The deadlines of a state.
pub open spec fn deadlines(state: TimerState) -> Map<u128, u64> {
    state.map_values(|v: (u64, String)| v.0)
}

/// Why a timer with a duration text was not set.
#[derive(Debug)]
pub enum ScheduleError<E> {
    /// The duration text was refused.
    Parse(ParseError),
    /// Appending the record to the log failed.
    Log(E),
}

/// What the dispatcher does next.
#[derive(Debug, PartialEq, Eq, Structural)]
pub enum DispatchAction {
    /// Recovery has not finished: sleep this long and look again.
    WaitForRecovery(u64),
    /// Nothing is due: sleep this long and look again.
    Sleep(u64),
    /// This timer is due: remove it and deliver its payload.
    Expire(u128),
}

/// The decision for a recovered engine whose earliest timer is `first`.
pub open spec fn decision(first: Option<Timer>, now: u64) -> DispatchAction {
    match first {
        None => DispatchAction::Sleep(IDLE_POLL_MS),
        Some(t) => if now >= t.expires_at {
            DispatchAction::Expire(t.id)
        } else {
            DispatchAction::Sleep((t.expires_at - now) as u64)
        },
    }
}

/// The deadline `ms` milliseconds after `now`, or `u64::MAX` where that is
/// later.
pub open spec fn deadline_after(now: u64, ms: u64) -> u64 {
    if ms > u64::MAX - now {
        u64::MAX
    } else {
        (now + ms) as u64
    }
}

/// The timer of `state` that falls due first, if any.
pub open spec fn first_timer(state: TimerState) -> Option<Timer> {
    if exists|t: Timer| is_first(deadlines(state), t) {
        Some(choose|t: Timer| is_first(deadlines(state), t))
    } else {
        None
    }
}

/// What the dispatcher of an engine in `state` does at `now`.
pub open spec fn dispatch_action(recovered: bool, state: TimerState, now: u64) -> DispatchAction {
    if !recovered {
        DispatchAction::WaitForRecovery(RECOVERY_POLL_MS)
    } else {
        decision(first_timer(state), now)
    }
}

proof fn lemma_first_unique(m: Map<u128, u64>, a: Timer, b: Timer)
    requires
        is_first(m, a),
        is_first(m, b),
    ensures
        a == b,
{
    if a.id != b.id {
        assert(m.contains_key(b.id));
        assert(precedes(a, Timer { expires_at: m[b.id], id: b.id }));
        assert(m.contains_key(a.id));
        assert(precedes(b, Timer { expires_at: m[a.id], id: a.id }));
    }
}

/// A timer that falls due before every other pending one is the first timer.
pub proof fn lemma_first_timer(state: TimerState, t: Timer)
    requires
        is_first(deadlines(state), t),
    ensures
        first_timer(state) == Some(t),
{
    let c = choose|c: Timer| is_first(deadlines(state), c);
    lemma_first_unique(deadlines(state), t, c);
}

/// What a pending timer looks like to a caller listing the timers.
#[derive(Debug)]
pub struct TimerInfo {
    pub id: u128,
    pub expires_at: u64,
    pub data: String,
    pub time_left_ms: u64,
}

/// How `format_time_left` writes a number of milliseconds: the largest two
/// or three units that apply, or `Expired` for zero.
pub open spec fn time_left_text(ms: u64) -> Seq<char> {
    let hours = ms / 3600000;
    let minutes = (ms % 3600000) / 60000;
    let seconds = (ms % 60000) / 1000;
    let millis = ms % 1000;
    if ms == 0 {
        "Expired"@
    } else if hours > 0 {
        decimal(hours as nat) + seq!['h', ' '] + decimal(minutes as nat) + seq!['m', ' ']
            + decimal(seconds as nat) + seq!['s']
    } else if minutes > 0 {
        decimal(minutes as nat) + seq!['m', ' '] + decimal(seconds as nat) + seq!['s']
    } else if seconds > 0 {
        decimal(seconds as nat) + seq!['s', ' '] + decimal(millis as nat) + seq!['m', 's']
    } else {
        decimal(millis as nat) + seq!['m', 's']
    }
}

/// The timer an info describes.
pub open spec fn info_timer(i: TimerInfo) -> Timer {
    Timer { expires_at: i.expires_at, id: i.id }
}

/// `infos` lists the timers of `state`, earliest first, each with its payload.
pub open spec fn lists_infos(infos: Seq<TimerInfo>, state: TimerState) -> bool {
    &&& lists(infos.map_values(|i: TimerInfo| info_timer(i)), deadlines(state))
    &&& forall|k: int|
        0 <= k < infos.len() ==> #[trigger] infos[k].data == state[infos[k].id].1
}

/// `infos` lists the timers of `state` with the time left at `now`.
pub open spec fn lists_active(infos: Seq<TimerInfo>, state: TimerState, now: u64) -> bool {
    &&& lists_infos(infos, state)
    &&& forall|k: int|
        0 <= k < infos.len() ==> #[trigger] infos[k].time_left_ms == time_left(
            infos[k].expires_at,
            now,
        )
}

impl TimerInfo {
    /// The time left in words, such as `1h 30m 0s`, `2m 5s`, `3s 250ms` or
    /// `40ms`; `Expired` once none is left.
    pub fn format_time_left(&self) -> (r: String)
        ensures
            r@ == time_left_text(self.time_left_ms),
    {
        let ms = self.time_left_ms;
        if ms == 0 {
            return String::from_str("Expired");
        }
        let hours = ms / 3600000;
        let minutes = (ms % 3600000) / 60000;
        let seconds = (ms % 60000) / 1000;
        let millis = ms % 1000;
        let mut out = String::new();
        if hours > 0 {
            push_decimal(&mut out, hours);
            push_char(&mut out, 'h');
            push_char(&mut out, ' ');
            push_decimal(&mut out, minutes);
            push_char(&mut out, 'm');
            push_char(&mut out, ' ');
            push_decimal(&mut out, seconds);
            push_char(&mut out, 's');
        } else if minutes > 0 {
            push_decimal(&mut out, minutes);
            push_char(&mut out, 'm');
            push_char(&mut out, ' ');
            push_decimal(&mut out, seconds);
            push_char(&mut out, 's');
        } else if seconds > 0 {
            push_decimal(&mut out, seconds);
            push_char(&mut out, 's');
            push_char(&mut out, ' ');
            push_decimal(&mut out, millis);
            push_char(&mut out, 'm');
            push_char(&mut out, 's');
        } else {
            push_decimal(&mut out, millis);
            push_char(&mut out, 'm');
            push_char(&mut out, 's');
        }
        assert(out@ =~= time_left_text(ms));
        out
    }

    /// The deadline relative to now, such as `in 2m 5s`.
    pub fn format_expires_at(&self) -> (r: String)
        ensures
            r@ == seq!['i', 'n', ' '] + time_left_text(self.time_left_ms),
    {
        let mut out = String::new();
        push_char(&mut out, 'i');
        push_char(&mut out, 'n');
        push_char(&mut out, ' ');
        let left = self.format_time_left();
        out.append(left.as_str());
        assert(out@ =~= seq!['i', 'n', ' '] + time_left_text(self.time_left_ms));
        out
    }
}

/// The pending timers with their payloads, and whether recovery is done.
pub struct TimerShip {
    timers: Timers,
    timer_data: TimerData,
    recovery_complete: bool,
}

impl View for TimerShip {
    type V = TimerState;

    closed spec fn view(&self) -> TimerState {
        joined(self.timers@, self.timer_data@)
    }
}

impl TimerShip {
    pub closed spec fn wf(&self) -> bool {
        consistent(&self.timers, &self.timer_data)
    }

    pub closed spec fn recovered(&self) -> bool {
        self.recovery_complete
    }

    /// An engine with no timers whose recovery has not run yet.
    pub fn new() -> (r: TimerShip)
        ensures
            r.wf(),
            !r.recovered(),
            r@ == Map::<u128, (u64, String)>::empty(),
    {
        let r = TimerShip { timers: Timers::new(), timer_data: TimerData::new(), recovery_complete: false };
        assert(r@ =~= Map::<u128, (u64, String)>::empty());
        r
    }

    pub fn is_recovered(&self) -> (r: bool)
        ensures
            r == self.recovered(),
    {
        self.recovery_complete
    }

    /// Replays the records of a log, in order, and marks recovery done. This
    /// runs once, before the dispatcher acts.
    pub fn recover_from_logs(&mut self, entries: &Vec<LogEntry>)
        requires
            old(self).wf(),
            !old(self).recovered(),
        ensures
            final(self).wf(),
            final(self).recovered(),
            final(self)@ == replay_onto(old(self)@, entries@),
    {
        replay_entries(entries, &mut self.timers, &mut self.timer_data);
        self.recovery_complete = true;
    }

    /// An identifier that no pending timer has: the least one, which is
    /// never above the number of pending timers.
    fn unused_id(&self) -> (r: u128)
        requires
            self.wf(),
        ensures
            !self@.contains_key(r),
    {
        proof {
            self.lemma_view_dom();
            self.timers.lemma_dom_finite();
        }
        let n = self.timers.timer_count();
        let mut k: u128 = 0;
        let ghost mut taken: Set<u128> = Set::empty();
        while k <= n as u128 && self.timers.contains_timer(k)
            invariant
                self.wf(),
                self.timers@.dom().finite(),
                n == self.timers@.len(),
                k <= n + 1,
                taken.finite(),
                taken.len() == k,
                forall|x: u128| #[trigger] taken.contains(x) ==> x < k,
                forall|x: u128| #[trigger] taken.contains(x) ==> self.timers@.contains_key(x),
            decreases n + 1 - k,
        {
            proof {
                taken = taken.insert(k);
            }
            k = k + 1;
        }
        proof {
            if k > n as u128 {
                assert(taken.subset_of(self.timers@.dom()));
                vstd::set_lib::lemma_len_subset(taken, self.timers@.dom());
            }
        }
        k
    }

    /// Registers a timer for the absolute deadline `expires_at`. The record
    /// goes to `append` first; only when that succeeds is the timer added,
    /// under an identifier that no pending timer has, which is returned. The
    /// identifier is drawn at random, and in the unlikely case that it is
    /// taken, the least free one is used instead.
    pub fn set_timer_at<E, F: FnOnce(&LogEntry) -> Result<(), E>>(
        &mut self,
        expires_at: u64,
        data: String,
        append: F,
    ) -> (r: Result<u128, E>)
        requires
            old(self).wf(),
            forall|e: &LogEntry| append.requires((e,)),
        ensures
            final(self).wf(),
            final(self).recovered() == old(self).recovered(),
            match r {
                Ok(id) => {
                    &&& !old(self)@.contains_key(id)
                    &&& final(self)@ == old(self)@.insert(id, (expires_at, data))
                    &&& exists|ts: u64|
                        append.ensures(
                            (
                                &(LogEntry {
                                    timestamp: ts,
                                    operation: LogOperation::SetTimer {
                                        timer_id: id,
                                        expires_at,
                                        data,
                                    },
                                }),
                            ),
                            Ok(()),
                        )
                },
                Err(e) => {
                    &&& final(self)@ == old(self)@
                    &&& exists|ts: u64, id: u128|
                        append.ensures(
                            (
                                &(LogEntry {
                                    timestamp: ts,
                                    operation: LogOperation::SetTimer {
                                        timer_id: id,
                                        expires_at,
                                        data,
                                    },
                                }),
                            ),
                            Err(e),
                        )
                },
            },
    {
        proof {
            self.lemma_view_dom();
        }
        let drawn = Timer::new(expires_at).id;
        let id = if self.timers.contains_timer(drawn) {
            self.unused_id()
        } else {
            drawn
        };
        let entry = LogEntry {
            timestamp: current_time_ms(),
            operation: LogOperation::SetTimer { timer_id: id, expires_at, data },
        };
        let res = append(&entry);
        assert(append.ensures((&entry,), res));
        match res {
            Ok(u) => {
                apply_operation_to(&entry.operation, &mut self.timers, &mut self.timer_data);
                assert(res == Ok::<(), E>(u));
                assert(append.ensures((&entry,), Ok(())));
                Ok(id)
            },
            Err(e) => Err(e),
        }
    }

    /// Same as [`TimerShip::set_timer_at`].
    pub fn set_timer<E, F: FnOnce(&LogEntry) -> Result<(), E>>(
        &mut self,
        expires_at: u64,
        data: String,
        append: F,
    ) -> (r: Result<u128, E>)
        requires
            old(self).wf(),
            forall|e: &LogEntry| append.requires((e,)),
        ensures
            final(self).wf(),
            final(self).recovered() == old(self).recovered(),
            match r {
                Ok(id) => {
                    &&& !old(self)@.contains_key(id)
                    &&& final(self)@ == old(self)@.insert(id, (expires_at, data))
                    &&& exists|ts: u64|
                        append.ensures(
                            (
                                &(LogEntry {
                                    timestamp: ts,
                                    operation: LogOperation::SetTimer {
                                        timer_id: id,
                                        expires_at,
                                        data,
                                    },
                                }),
                            ),
                            Ok(()),
                        )
                },
                Err(e) => {
                    &&& final(self)@ == old(self)@
                    &&& exists|ts: u64, id: u128|
                        append.ensures(
                            (
                                &(LogEntry {
                                    timestamp: ts,
                                    operation: LogOperation::SetTimer {
                                        timer_id: id,
                                        expires_at,
                                        data,
                                    },
                                }),
                            ),
                            Err(e),
                        )
                },
            },
    {
        self.set_timer_at(expires_at, data, append)
    }

    /// Registers a timer that falls due `duration_str` after `now` (see
    /// [`parse_duration`]); the deadline saturates at `u64::MAX`. A refused
    /// duration is returned as is and nothing is logged.
    pub fn set_timer_after<E, F: FnOnce(&LogEntry) -> Result<(), E>>(
        &mut self,
        now: u64,
        duration_str: &str,
        data: String,
        append: F,
    ) -> (r: Result<u128, ScheduleError<E>>)
        requires
            old(self).wf(),
            forall|e: &LogEntry| append.requires((e,)),
        ensures
            final(self).wf(),
            final(self).recovered() == old(self).recovered(),
            match r {
                Ok(id) => {
                    &&& duration_outcome(duration_str@) is Ok
                    &&& !old(self)@.contains_key(id)
                    &&& final(self)@ == old(self)@.insert(
                        id,
                        (deadline_after(now, duration_outcome(duration_str@)->Ok_0), data),
                    )
                    &&& exists|ts: u64|
                        append.ensures(
                            (
                                &(LogEntry {
                                    timestamp: ts,
                                    operation: LogOperation::SetTimer {
                                        timer_id: id,
                                        expires_at: deadline_after(
                                            now,
                                            duration_outcome(duration_str@)->Ok_0,
                                        ),
                                        data,
                                    },
                                }),
                            ),
                            Ok(()),
                        )
                },
                Err(ScheduleError::Parse(e)) => {
                    &&& duration_outcome(duration_str@) == Err::<u64, _>(e.failure())
                    &&& final(self)@ == old(self)@
                },
                Err(ScheduleError::Log(e)) => {
                    &&& duration_outcome(duration_str@) is Ok
                    &&& final(self)@ == old(self)@
                    &&& exists|ts: u64, id: u128|
                        append.ensures(
                            (
                                &(LogEntry {
                                    timestamp: ts,
                                    operation: LogOperation::SetTimer {
                                        timer_id: id,
                                        expires_at: deadline_after(
                                            now,
                                            duration_outcome(duration_str@)->Ok_0,
                                        ),
                                        data,
                                    },
                                }),
                            ),
                            Err(e),
                        )
                },
            },
    {
        let duration_ms = match parse_duration(duration_str) {
            Ok(ms) => ms,
            Err(e) => {
                return Err(ScheduleError::Parse(e));
            },
        };
        let expires_at = if duration_ms > u64::MAX - now {
            u64::MAX
        } else {
            now + duration_ms
        };
        match self.set_timer_at(expires_at, data, append) {
            Ok(id) => Ok(id),
            Err(e) => Err(ScheduleError::Log(e)),
        }
    }

    /// Registers a timer that falls due `duration_str` from now, by the
    /// clock: [`TimerShip::set_timer_after`] with the current time.
    pub fn set_timer_with_duration<E, F: FnOnce(&LogEntry) -> Result<(), E>>(
        &mut self,
        duration_str: &str,
        data: String,
        append: F,
    ) -> (r: Result<u128, ScheduleError<E>>)
        requires
            old(self).wf(),
            forall|e: &LogEntry| append.requires((e,)),
        ensures
            final(self).wf(),
            final(self).recovered() == old(self).recovered(),
            match r {
                Ok(id) => {
                    &&& duration_outcome(duration_str@) is Ok
                    &&& !old(self)@.contains_key(id)
                    &&& final(self)@.contains_key(id)
                    &&& final(self)@[id].0 >= duration_outcome(duration_str@)->Ok_0
                    &&& final(self)@ == old(self)@.insert(id, (final(self)@[id].0, data))
                    &&& exists|ts: u64|
                        append.ensures(
                            (
                                &(LogEntry {
                                    timestamp: ts,
                                    operation: LogOperation::SetTimer {
                                        timer_id: id,
                                        expires_at: final(self)@[id].0,
                                        data,
                                    },
                                }),
                            ),
                            Ok(()),
                        )
                },
                Err(ScheduleError::Parse(e)) => {
                    &&& duration_outcome(duration_str@) == Err::<u64, _>(e.failure())
                    &&& final(self)@ == old(self)@
                },
                Err(ScheduleError::Log(e)) => {
                    &&& duration_outcome(duration_str@) is Ok
                    &&& final(self)@ == old(self)@
                    &&& exists|ts: u64, id: u128, at: u64|
                        at >= duration_outcome(duration_str@)->Ok_0 && append.ensures(
                            (
                                &(LogEntry {
                                    timestamp: ts,
                                    operation: LogOperation::SetTimer {
                                        timer_id: id,
                                        expires_at: at,
                                        data,
                                    },
                                }),
                            ),
                            Err(e),
                        )
                },
            },
    {
        let now = current_time_ms();
        self.set_timer_after(now, duration_str, data, append)
    }

    /// Takes the timer `timer_id` out of the queue and its payload out of the
    /// store, and returns the payload.
    fn remove_timer_internal(&mut self, timer_id: u128) -> (r: Option<String>)
        requires
            old(self).wf(),
        ensures
            final(self).wf(),
            final(self).recovered() == old(self).recovered(),
            final(self)@ == old(self)@.remove(timer_id),
            r == removed_payload(old(self)@, timer_id),
    {
        let op = LogOperation::RemoveTimer { timer_id };
        apply_operation_to(&op, &mut self.timers, &mut self.timer_data)
    }

    /// Cancels the timer `timer_id`. The record goes to `append` first, even
    /// where no such timer is pending; only when that succeeds is the timer
    /// removed. Returns its payload, or `None` where it was not pending.
    pub fn remove_timer<E, F: FnOnce(&LogEntry) -> Result<(), E>>(
        &mut self,
        timer_id: u128,
        append: F,
    ) -> (r: Result<Option<String>, E>)
        requires
            old(self).wf(),
            forall|e: &LogEntry| append.requires((e,)),
        ensures
            final(self).wf(),
            final(self).recovered() == old(self).recovered(),
            match r {
                Ok(d) => {
                    &&& final(self)@ == old(self)@.remove(timer_id)
                    &&& d == removed_payload(old(self)@, timer_id)
                    &&& exists|ts: u64|
                        append.ensures(
                            (
                                &(LogEntry {
                                    timestamp: ts,
                                    operation: LogOperation::RemoveTimer { timer_id },
                                }),
                            ),
                            Ok(()),
                        )
                },
                Err(e) => {
                    &&& final(self)@ == old(self)@
                    &&& exists|ts: u64|
                        append.ensures(
                            (
                                &(LogEntry {
                                    timestamp: ts,
                                    operation: LogOperation::RemoveTimer { timer_id },
                                }),
                            ),
                            Err(e),
                        )
                },
            },
    {
        let entry = LogEntry {
            timestamp: current_time_ms(),
            operation: LogOperation::RemoveTimer { timer_id },
        };
        let res = append(&entry);
        match res {
            Ok(u) => {
                assert(res == Ok::<(), E>(u));
                Ok(self.remove_timer_internal(timer_id))
            },
            Err(e) => Err(e),
        }
    }

    proof fn lemma_view_dom(&self)
        requires
            self.wf(),
        ensures
            deadlines(self@) == self.timers@,
            self@.dom() == self.timers@.dom(),
            self@.len() == self.timers@.len(),
    {
        assert(self@.dom() =~= self.timers@.dom());
        assert(deadlines(self@) =~= self.timers@);
    }

    /// The timer that falls due first, left pending.
    pub fn get_expiring_timer(&self) -> (r: Option<Timer>)
        requires
            self.wf(),
        ensures
            r == first_timer(self@),
            r is None <==> self@.len() == 0,
    {
        proof {
            self.lemma_view_dom();
        }
        let r = self.timers.peek_timer();
        proof {
            if let Some(t) = r {
                lemma_first_timer(self@, t);
            } else {
                if exists|t: Timer| is_first(deadlines(self@), t) {
                    let c = choose|c: Timer| is_first(deadlines(self@), c);
                    assert(self.timers@.contains_key(c.id));
                }
            }
        }
        r
    }

    /// The dispatcher's next step at time `now`: wait for recovery, sleep
    /// while nothing is pending or until the earliest deadline, or expire the
    /// earliest timer once it is due.
    pub fn next_action(&self, now: u64) -> (r: DispatchAction)
        requires
            self.wf(),
        ensures
            r == dispatch_action(self.recovered(), self@, now),
    {
        if !self.recovery_complete {
            return DispatchAction::WaitForRecovery(RECOVERY_POLL_MS);
        }
        match self.get_expiring_timer() {
            None => DispatchAction::Sleep(IDLE_POLL_MS),
            Some(t) => if t.is_expired(now) {
                DispatchAction::Expire(t.id)
            } else {
                DispatchAction::Sleep(t.get_time_left(now))
            },
        }
    }

    /// The pending timers, earliest first, each with its payload and the
    /// time left at `now`.
    pub fn list_active_timers_at(&self, now: u64) -> (r: Vec<TimerInfo>)
        requires
            self.wf(),
        ensures
            lists_active(r@, self@, now),
    {
        proof {
            self.lemma_view_dom();
        }
        let all = self.timers.get_all_timers();
        let mut r: Vec<TimerInfo> = Vec::new();
        let mut i: usize = 0;
        while i < all.len()
            invariant
                self.wf(),
                lists(all@, self.timers@),
                deadlines(self@) == self.timers@,
                i <= all@.len(),
                r@.len() == i,
                forall|k: int| 0 <= k < i ==> info_timer(#[trigger] r@[k]) == all@[k],
                forall|k: int| 0 <= k < i ==> #[trigger] r@[k].data == self@[r@[k].id].1,
                forall|k: int|
                    0 <= k < i ==> #[trigger] r@[k].time_left_ms == time_left(
                        r@[k].expires_at,
                        now,
                    ),
            decreases all@.len() - i,
        {
            let t = all[i];
            assert(self.timers@.contains_key(t.id));
            if let Some(data) = self.timer_data.get_data(t.id) {
                r.push(
                    TimerInfo {
                        id: t.id,
                        expires_at: t.expires_at,
                        data,
                        time_left_ms: t.get_time_left(now),
                    },
                );
            }
            i = i + 1;
        }
        assert(r@.map_values(|i: TimerInfo| info_timer(i)) =~= all@);
        r
    }

    /// The pending timers, earliest first, each with its payload and the
    /// time left according to the clock.
    pub fn list_active_timers(&self) -> (r: Vec<TimerInfo>)
        requires
            self.wf(),
        ensures
            lists_infos(r@, self@),
            forall|k: int| 0 <= k < r@.len() ==> #[trigger] r@[k].time_left_ms <= r@[k].expires_at,
    {
        let now = current_time_ms();
        self.list_active_timers_at(now)
    }

    /// The number of pending timers.
    pub fn active_timer_count(&self) -> (r: usize)
        requires
            self.wf(),
        ensures
            r == self@.len(),
    {
        proof {
            self.lemma_view_dom();
        }
        self.timers.timer_count()
    }
}

/// Timers expire in the order in which they fall due: while `x` and `y` are
/// both pending and `x` falls due first, the dispatcher does not expire `y`.
pub proof fn lemma_dispatch_order(state: TimerState, now: u64, x: u128, y: u128)
    requires
        state.contains_key(x),
        state.contains_key(y),
        precedes(Timer { expires_at: state[x].0, id: x }, Timer { expires_at: state[y].0, id: y }),
    ensures
        decision(first_timer(state), now) != DispatchAction::Expire(y),
{
    if let Some(t) = first_timer(state) {
        let m = deadlines(state);
        if t.id == y {
            assert(m.contains_key(x));
            assert(precedes(t, Timer { expires_at: m[x], id: x }));
        }
    }
}

/// Round trip: once a set has added `id` with a deadline and a payload, a
/// listing holds exactly one entry for `id`, with that deadline and payload.
pub proof fn lemma_set_then_listed(
    state: TimerState,
    id: u128,
    expires_at: u64,
    data: String,
    infos: Seq<TimerInfo>,
    now: u64,
)
    requires
        lists_active(infos, state.insert(id, (expires_at, data)), now),
    ensures
        exists|k: int|
            0 <= k < infos.len() && #[trigger] infos[k].id == id && infos[k].expires_at
                == expires_at && infos[k].data == data,
        forall|k1: int, k2: int|
            0 <= k1 < infos.len() && 0 <= k2 < infos.len() && #[trigger] infos[k1].id == id
                && #[trigger] infos[k2].id == id ==> k1 == k2,
{
    let after = state.insert(id, (expires_at, data));
    let ts = infos.map_values(|i: TimerInfo| info_timer(i));
    assert(deadlines(after).contains_key(id));
    let k = choose|k: int| 0 <= k < ts.len() && ts[k].id == id;
    assert(ts[k] == info_timer(infos[k]));
    assert(infos[k].data == after[infos[k].id].1);
    assert forall|k1: int, k2: int|
        0 <= k1 < infos.len() && 0 <= k2 < infos.len() && #[trigger] infos[k1].id == id
            && #[trigger] infos[k2].id == id implies k1 == k2 by {
        assert(ts[k1].id == infos[k1].id);
        assert(ts[k2].id == infos[k2].id);
    }
}

/// Removing twice: the second removal finds nothing and changes nothing.
pub proof fn lemma_remove_twice(state: TimerState, id: u128)
    ensures
        removed_payload(state.remove(id), id) is None,
        state.remove(id).remove(id) == state.remove(id),
{
    assert(state.remove(id).remove(id) =~= state.remove(id));
}

} // verus!
