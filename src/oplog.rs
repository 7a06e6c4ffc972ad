//! Records of the operation log, and what replaying them means.
//!
//! The log is append-only: each `set` or `remove` is recorded before its
//! effect is applied, so the pending timers are at every moment what
//! replaying the whole log from an empty state gives.

use vstd::prelude::*;
use vstd::string::*;
use crate::text::{trim_text, trim_ws};

verus! {

/// An operation on the pending timers.
#[derive(Debug)]
pub enum LogOperation {
    SetTimer { timer_id: u128, expires_at: u64, data: String },
    RemoveTimer { timer_id: u128 },
}

/// A log record: an operation and the time, in milliseconds since the Unix
/// epoch, at which it was requested.
#[derive(Debug)]
pub struct LogEntry {
    pub timestamp: u64,
    pub operation: LogOperation,
}

/// Pending timers as a map from identifier to deadline and payload.
pub type TimerState = Map<u128, (u64, String)>;

/// The state after one operation.
pub open spec fn apply_operation(state: TimerState, op: LogOperation) -> TimerState {
    match op {
        LogOperation::SetTimer { timer_id, expires_at, data } => state.insert(
            timer_id,
            (expires_at, data),
        ),
        LogOperation::RemoveTimer { timer_id } => state.remove(timer_id),
    }
}

/// The state after the records of `entries`, in order, starting from `state`.
pub open spec fn replay_onto(state: TimerState, entries: Seq<LogEntry>) -> TimerState
    decreases entries.len(),
{
    if entries.len() == 0 {
        state
    } else {
        apply_operation(replay_onto(state, entries.drop_last()), entries.last().operation)
    }
}

/// The state that a log describes: its records replayed from nothing.
pub open spec fn replay(entries: Seq<LogEntry>) -> TimerState {
    replay_onto(Map::empty(), entries)
}

/// The index of the first newline of `s`, or its length where there is none.
pub open spec fn newline_index(s: Seq<char>) -> nat
    decreases s.len(),
{
    if s.len() == 0 {
        0
    } else if s[0] == '\n' {
        0
    } else {
        1 + newline_index(s.drop_first())
    }
}

/// The lines of a text: the pieces between newlines, and a last piece that
/// no newline ends where it is not empty.
pub open spec fn split_lines(s: Seq<char>) -> Seq<Seq<char>>
    decreases s.len(),
{
    let k = newline_index(s);
    if s.len() == 0 {
        Seq::empty()
    } else if k >= s.len() {
        seq![s]
    } else {
        seq![s.subrange(0, k as int)] + split_lines(s.subrange(k + 1int, s.len() as int))
    }
}

/// A line that holds nothing but white space.
pub open spec fn is_blank(line: Seq<char>) -> bool {
    trim_ws(line).len() == 0
}

/// The lines that are not blank, in order.
pub open spec fn non_blank(lines: Seq<Seq<char>>) -> Seq<Seq<char>>
    decreases lines.len(),
{
    if lines.len() == 0 {
        Seq::empty()
    } else if is_blank(lines[0]) {
        non_blank(lines.drop_first())
    } else {
        seq![lines[0]] + non_blank(lines.drop_first())
    }
}

/// The record lines of a log's text: its lines that are not blank.
pub open spec fn record_lines_of(text: Seq<char>) -> Seq<Seq<char>> {
    non_blank(split_lines(text))
}

proof fn lemma_newline_index(s: Seq<char>)
    ensures
        newline_index(s) <= s.len(),
        forall|k: int| 0 <= k < newline_index(s) ==> s[k] != '\n',
        newline_index(s) < s.len() ==> s[newline_index(s) as int] == '\n',
    decreases s.len(),
{
    if s.len() > 0 && s[0] != '\n' {
        lemma_newline_index(s.drop_first());
        assert forall|k: int| 0 <= k < newline_index(s) implies s[k] != '\n' by {
            if k > 0 {
                assert(s[k] == s.drop_first()[k - 1]);
            }
        }
    }
}

/// Any index before which no newline stands and at which one stands, or
/// which is the end, is the newline index.
proof fn lemma_newline_index_is(s: Seq<char>, k: nat)
    requires
        k <= s.len(),
        forall|j: int| 0 <= j < k ==> s[j] != '\n',
        k < s.len() ==> s[k as int] == '\n',
    ensures
        newline_index(s) == k,
{
    lemma_newline_index(s);
    if newline_index(s) < k {
        assert(s[newline_index(s) as int] == '\n');
    }
    if k < newline_index(s) {
        assert(s[k as int] != '\n');
    }
}

/// Views of the strings of a vector.
pub open spec fn views(v: Seq<String>) -> Seq<Seq<char>> {
    v.map_values(|s: String| s@)
}

/// Splits the text of a log into its record lines: the lines, without their
/// newline, that hold more than white space. A last line that no newline
/// ends counts too; a carriage return before a newline stays in its line.
pub fn record_lines(text: &str) -> (r: Vec<String>)
    ensures
        views(r@) == record_lines_of(text@),
{
    let n = text.unicode_len();
    let mut out: Vec<String> = Vec::new();
    let mut start: usize = 0;
    let mut i: usize = 0;
    proof {
        assert(text@.subrange(0, n as int) =~= text@);
        assert(views(out@) =~= Seq::<Seq<char>>::empty());
        assert(views(out@) + record_lines_of(text@) =~= record_lines_of(text@));
    }
    while i < n
        invariant
            n == text@.len(),
            start <= i <= n,
            forall|j: int| start <= j < i ==> text@[j] != '\n',
            views(out@) + record_lines_of(text@.subrange(start as int, n as int))
                == record_lines_of(text@),
        decreases n - i,
    {
        if text.get_char(i) == '\n' {
            let line = text.substring_char(start, i);
            let ghost rest = text@.subrange(start as int, n as int);
            proof {
                lemma_newline_index_is(rest, (i - start) as nat);
                assert(rest.subrange(0, (i - start) as int) =~= line@);
                assert(rest.subrange(i - start + 1, rest.len() as int) =~= text@.subrange(
                    i + 1,
                    n as int,
                ));
                let tail = split_lines(text@.subrange(i + 1, n as int));
                assert(split_lines(rest) == seq![line@] + tail);
                assert((seq![line@] + tail).drop_first() =~= tail);
            }
            if trim_text(line).is_empty() {
                proof {
                    assert(views(out@) + record_lines_of(text@.subrange(i + 1, n as int))
                        == record_lines_of(text@));
                }
            } else {
                let ghost before = out@;
                out.push(String::from_str(line));
                proof {
                    assert(views(out@) =~= views(before) + seq![line@]);
                    assert(views(out@) + record_lines_of(text@.subrange(i + 1, n as int))
                        =~= views(before) + record_lines_of(rest));
                }
            }
            start = i + 1;
        }
        i = i + 1;
    }
    if start < n {
        let line = text.substring_char(start, n);
        let ghost rest = text@.subrange(start as int, n as int);
        proof {
            lemma_newline_index_is(rest, (n - start) as nat);
            assert(rest =~= line@);
            assert(split_lines(rest) == seq![line@]);
            assert(seq![line@].drop_first() =~= Seq::<Seq<char>>::empty());
            assert(non_blank(Seq::<Seq<char>>::empty()) == Seq::<Seq<char>>::empty());
        }
        if !trim_text(line).is_empty() {
            let ghost before = out@;
            out.push(String::from_str(line));
            proof {
                assert(views(out@) =~= views(before) + seq![line@]);
            }
        }
        proof {
            assert(views(out@) =~= record_lines_of(text@));
        }
    } else {
        proof {
            assert(text@.subrange(start as int, n as int) =~= Seq::<char>::empty());
            assert(views(out@) =~= record_lines_of(text@));
        }
    }
    out
}

/// Replaying a log and then further records is replaying the log they make
/// together.
proof fn lemma_replay_append(state: TimerState, log: Seq<LogEntry>, more: Seq<LogEntry>)
    ensures
        replay_onto(state, log + more) == replay_onto(replay_onto(state, log), more),
    decreases more.len(),
{
    if more.len() == 0 {
        assert(log + more =~= log);
    } else {
        assert((log + more).drop_last() =~= log + more.drop_last());
        assert((log + more).last() == more.last());
        lemma_replay_append(state, log, more.drop_last());
    }
}

/// Recovery fidelity: a fresh engine that replays the log written by another
/// engine, which recovered `log` and then logged `more`, holds the same timers.
pub proof fn lemma_recovery_fidelity(log: Seq<LogEntry>, more: Seq<LogEntry>)
    ensures
        replay(log + more) == replay_onto(replay(log), more),
{
    lemma_replay_append(Map::empty(), log, more);
}

/// Recovery fidelity over a run of calls: an engine that starts from what
/// `log` describes and then goes through `states`, each step applying the
/// operation of the record it appended (as every successful set and remove
/// does), ends in what a fresh engine recovers from `log` followed by those
/// records.
pub proof fn lemma_run_matches_log(log: Seq<LogEntry>, more: Seq<LogEntry>, states: Seq<TimerState>)
    requires
        states.len() == more.len() + 1,
        states[0] == replay(log),
        forall|i: int|
            0 <= i < more.len() ==> #[trigger] states[i + 1] == apply_operation(
                states[i],
                more[i].operation,
            ),
    ensures
        states.last() == replay(log + more),
    decreases more.len(),
{
    lemma_recovery_fidelity(log, more);
    if more.len() == 0 {
        assert(replay_onto(replay(log), more) == replay(log));
    } else {
        let m = more.drop_last();
        let st = states.drop_last();
        assert forall|i: int| 0 <= i < m.len() implies #[trigger] st[i + 1] == apply_operation(
            st[i],
            m[i].operation,
        ) by {
            assert(states[i + 1] == apply_operation(states[i], more[i].operation));
        }
        lemma_run_matches_log(log, m, st);
        lemma_recovery_fidelity(log, m);
        assert(states[more.len() as int] == apply_operation(
            states[more.len() - 1],
            more[more.len() - 1].operation,
        ));
    }
}

} // verus!
