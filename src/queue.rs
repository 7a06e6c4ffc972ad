//! The timer queue: pending timers kept in the order in which they fall due.
//!
//! The queue is a vector sorted by deadline and then identifier, so the
//! earliest timer is always at the front. Its model is a map from identifier
//! to deadline: no identifier occurs twice.

use vstd::prelude::*;
use crate::timer::{precedes, Timer};

verus! {

/// `s` is in strictly increasing order of deadline, then identifier.
pub open spec fn ordered(s: Seq<Timer>) -> bool {
    forall|i: int, j: int| 0 <= i < j < s.len() ==> precedes(#[trigger] s[i], #[trigger] s[j])
}

/// No identifier occurs twice in `s`.
pub open spec fn distinct_ids(s: Seq<Timer>) -> bool {
    forall|i: int, j: int| 0 <= i < s.len() && 0 <= j < s.len() && i != j ==> #[trigger] s[i].id
        != #[trigger] s[j].id
}

/// `s` lists the entries of `m`, each once, in the order in which they fall
/// due.
pub open spec fn lists(s: Seq<Timer>, m: Map<u128, u64>) -> bool {
    &&& ordered(s)
    &&& distinct_ids(s)
    &&& forall|i: int|
        0 <= i < s.len() ==> m.contains_key(#[trigger] s[i].id) && m[s[i].id] == s[i].expires_at
    &&& forall|id: u128| #[trigger]
        m.contains_key(id) ==> exists|i: int| 0 <= i < s.len() && s[i].id == id
}

/// `t` is an entry of `m` that falls due before every other entry.
pub open spec fn is_first(m: Map<u128, u64>, t: Timer) -> bool {
    &&& m.contains_key(t.id)
    &&& m[t.id] == t.expires_at
    &&& forall|id: u128|
        #[trigger] m.contains_key(id) && id != t.id ==> precedes(
            t,
            Timer { expires_at: m[id], id },
        )
}

/// Pending timers, earliest first.
pub struct Timers {
    timers: Vec<Timer>,
    model: Ghost<Map<u128, u64>>,
}

impl View for Timers {
    type V = Map<u128, u64>;

    closed spec fn view(&self) -> Map<u128, u64> {
        self.model@
    }
}

proof fn lemma_lists_remove(s: Seq<Timer>, m: Map<u128, u64>, k: int)
    requires
        lists(s, m),
        0 <= k < s.len(),
    ensures
        lists(s.remove(k), m.remove(s[k].id)),
{
    let r = s.remove(k);
    let mr = m.remove(s[k].id);
    assert forall|i: int, j: int| 0 <= i < j < r.len() implies precedes(
        #[trigger] r[i],
        #[trigger] r[j],
    ) by {
        let a = if i < k {
            i
        } else {
            i + 1
        };
        let b = if j < k {
            j
        } else {
            j + 1
        };
        assert(r[i] == s[a] && r[j] == s[b]);
        assert(precedes(s[a], s[b]));
    }
    assert forall|i: int, j: int|
        0 <= i < r.len() && 0 <= j < r.len() && i != j implies #[trigger] r[i].id
        != #[trigger] r[j].id by {
        let a = if i < k {
            i
        } else {
            i + 1
        };
        let b = if j < k {
            j
        } else {
            j + 1
        };
        assert(r[i] == s[a] && r[j] == s[b]);
    }
    assert forall|i: int| 0 <= i < r.len() implies mr.contains_key(#[trigger] r[i].id)
        && mr[r[i].id] == r[i].expires_at by {
        let a = if i < k {
            i
        } else {
            i + 1
        };
        assert(r[i] == s[a]);
        assert(s[a].id != s[k].id);
    }
    assert forall|id: u128| #[trigger] mr.contains_key(id) implies exists|i: int|
        0 <= i < r.len() && r[i].id == id by {
        assert(m.contains_key(id));
        let a = choose|a: int| 0 <= a < s.len() && s[a].id == id;
        assert(a != k);
        if a < k {
            assert(r[a] == s[a]);
        } else {
            assert(r[a - 1] == s[a]);
        }
    }
}

proof fn lemma_lists_insert(s: Seq<Timer>, m: Map<u128, u64>, p: int, t: Timer)
    requires
        lists(s, m),
        !m.contains_key(t.id),
        0 <= p <= s.len(),
        forall|i: int| 0 <= i < p ==> precedes(#[trigger] s[i], t),
        forall|i: int| p <= i < s.len() ==> precedes(t, #[trigger] s[i]),
    ensures
        lists(s.insert(p, t), m.insert(t.id, t.expires_at)),
{
    let r = s.insert(p, t);
    let mr = m.insert(t.id, t.expires_at);
    assert forall|i: int| 0 <= i < s.len() implies #[trigger] s[i].id != t.id by {
        assert(m.contains_key(s[i].id));
    }
    assert forall|i: int, j: int| 0 <= i < j < r.len() implies precedes(
        #[trigger] r[i],
        #[trigger] r[j],
    ) by {
        if i < p && j < p {
            assert(r[i] == s[i] && r[j] == s[j]);
        } else if i < p && j == p {
            assert(r[i] == s[i]);
        } else if i < p {
            assert(r[i] == s[i] && r[j] == s[j - 1]);
        } else if i == p {
            assert(r[j] == s[j - 1]);
        } else {
            assert(r[i] == s[i - 1] && r[j] == s[j - 1]);
        }
    }
    assert forall|i: int, j: int|
        0 <= i < r.len() && 0 <= j < r.len() && i != j implies #[trigger] r[i].id
        != #[trigger] r[j].id by {
        if i != p && j != p {
            let a = if i < p {
                i
            } else {
                i - 1
            };
            let b = if j < p {
                j
            } else {
                j - 1
            };
            assert(r[i] == s[a] && r[j] == s[b]);
        } else if i == p {
            let b = if j < p {
                j
            } else {
                j - 1
            };
            assert(r[j] == s[b]);
        } else {
            let a = if i < p {
                i
            } else {
                i - 1
            };
            assert(r[i] == s[a]);
        }
    }
    assert forall|i: int| 0 <= i < r.len() implies mr.contains_key(#[trigger] r[i].id)
        && mr[r[i].id] == r[i].expires_at by {
        if i < p {
            assert(r[i] == s[i]);
        } else if i > p {
            assert(r[i] == s[i - 1]);
        }
    }
    assert forall|id: u128| #[trigger] mr.contains_key(id) implies exists|i: int|
        0 <= i < r.len() && r[i].id == id by {
        if id == t.id {
            assert(r[p].id == id);
        } else {
            assert(m.contains_key(id));
            let a = choose|a: int| 0 <= a < s.len() && s[a].id == id;
            if a < p {
                assert(r[a] == s[a]);
            } else {
                assert(r[a + 1] == s[a]);
            }
        }
    }
}

proof fn lemma_front_is_first(s: Seq<Timer>, m: Map<u128, u64>)
    requires
        lists(s, m),
        s.len() > 0,
    ensures
        is_first(m, s[0]),
{
    assert forall|id: u128| #[trigger] m.contains_key(id) && id != s[0].id implies precedes(
        s[0],
        Timer { expires_at: m[id], id },
    ) by {
        let a = choose|a: int| 0 <= a < s.len() && s[a].id == id;
        assert(a != 0);
        assert(precedes(s[0], s[a]));
    }
}

impl Timers {
    /// The invariant: the vector lists the model's entries, earliest first.
    pub closed spec fn wf(&self) -> bool {
        &&& lists(self.timers@, self.model@)
        &&& self.model@.dom().finite()
        &&& self.model@.len() == self.timers@.len()
    }

    pub fn new() -> (r: Timers)
        ensures
            r.wf(),
            r@ == Map::<u128, u64>::empty(),
    {
        Timers { timers: Vec::new(), model: Ghost(Map::empty()) }
    }

    /// Position of the timer with identifier `id`, if there is one.
    fn position_of(&self, id: u128) -> (r: Option<usize>)
        requires
            self.wf(),
        ensures
            r matches Some(k) ==> k < self.timers@.len() && self.timers@[k as int].id == id,
            r is None ==> !self@.contains_key(id),
    {
        let mut i: usize = 0;
        while i < self.timers.len()
            invariant
                self.wf(),
                i <= self.timers@.len(),
                forall|k: int| 0 <= k < i ==> self.timers@[k].id != id,
            decreases self.timers@.len() - i,
        {
            if self.timers[i].id == id {
                return Some(i);
            }
            i = i + 1;
        }
        None
    }

    pub proof fn lemma_dom_finite(&self)
        requires
            self.wf(),
        ensures
            self@.dom().finite(),
    {
    }

    /// Whether a timer with identifier `id` is pending.
    pub fn contains_timer(&self, id: u128) -> (r: bool)
        requires
            self.wf(),
        ensures
            r == self@.contains_key(id),
    {
        match self.position_of(id) {
            Some(k) => {
                assert(self.model@.contains_key(self.timers@[k as int].id));
                true
            },
            None => false,
        }
    }

    /// Removes the timer with identifier `timer_id`; does nothing where there
    /// is none.
    pub fn remove_timer(&mut self, timer_id: u128)
        requires
            old(self).wf(),
        ensures
            final(self).wf(),
            final(self)@ == old(self)@.remove(timer_id),
    {
        match self.position_of(timer_id) {
            None => {
                assert(self.model@.remove(timer_id) =~= self.model@);
            },
            Some(k) => {
                proof {
                    lemma_lists_remove(self.timers@, self.model@, k as int);
                }
                self.timers.remove(k);
                self.model = Ghost(self.model@.remove(timer_id));
            },
        }
    }

    /// Adds a timer; one with the same identifier is replaced.
    pub fn add_timer(&mut self, timer: Timer)
        requires
            old(self).wf(),
        ensures
            final(self).wf(),
            final(self)@ == old(self)@.insert(timer.id, timer.expires_at),
    {
        self.remove_timer(timer.id);
        let mut p: usize = 0;
        while p < self.timers.len() && self.timers[p].precedes(&timer)
            invariant
                self.wf(),
                !self@.contains_key(timer.id),
                p <= self.timers@.len(),
                forall|i: int| 0 <= i < p ==> precedes(#[trigger] self.timers@[i], timer),
            decreases self.timers@.len() - p,
        {
            p = p + 1;
        }
        proof {
            let s = self.timers@;
            assert forall|i: int| p <= i < s.len() implies precedes(timer, #[trigger] s[i]) by {
                assert(self.model@.contains_key(s[p as int].id));
                assert(!precedes(s[p as int], timer));
                assert(s[p as int].id != timer.id);
                if i > p {
                    assert(precedes(s[p as int], s[i]));
                }
            }
            lemma_lists_insert(s, self.model@, p as int, timer);
        }
        self.timers.insert(p, timer);
        self.model = Ghost(self.model@.insert(timer.id, timer.expires_at));
    }

    /// The timer that falls due first, left in place.
    pub fn peek_timer(&self) -> (r: Option<Timer>)
        requires
            self.wf(),
        ensures
            r is None <==> self@.len() == 0,
            r is None <==> self@ == Map::<u128, u64>::empty(),
            r matches Some(t) ==> is_first(self@, t),
    {
        if self.timers.len() == 0 {
            assert(self.model@ =~= Map::<u128, u64>::empty());
            None
        } else {
            proof {
                lemma_front_is_first(self.timers@, self.model@);
            }
            Some(self.timers[0])
        }
    }

    /// Removes and returns the timer that falls due first.
    pub fn pop_timer(&mut self) -> (r: Option<Timer>)
        requires
            old(self).wf(),
        ensures
            final(self).wf(),
            r is None ==> old(self)@.len() == 0 && final(self)@ == old(self)@,
            r matches Some(t) ==> is_first(old(self)@, t) && final(self)@ == old(self)@.remove(
                t.id,
            ),
    {
        if self.timers.len() == 0 {
            None
        } else {
            proof {
                lemma_front_is_first(self.timers@, self.model@);
                lemma_lists_remove(self.timers@, self.model@, 0);
            }
            let t = self.timers.remove(0);
            self.model = Ghost(self.model@.remove(t.id));
            Some(t)
        }
    }

    /// All pending timers, earliest first.
    pub fn get_all_timers(&self) -> (r: Vec<Timer>)
        requires
            self.wf(),
        ensures
            lists(r@, self@),
    {
        let mut r: Vec<Timer> = Vec::new();
        let mut i: usize = 0;
        while i < self.timers.len()
            invariant
                self.wf(),
                i <= self.timers@.len(),
                r@ == self.timers@.subrange(0, i as int),
            decreases self.timers@.len() - i,
        {
            r.push(self.timers[i]);
            i = i + 1;
            assert(r@ =~= self.timers@.subrange(0, i as int));
        }
        assert(r@ =~= self.timers@);
        r
    }

    pub fn timer_count(&self) -> (r: usize)
        requires
            self.wf(),
        ensures
            r == self@.len(),
    {
        self.timers.len()
    }

    pub fn is_empty(&self) -> (r: bool)
        requires
            self.wf(),
        ensures
            r == (self@.len() == 0),
    {
        self.timers.len() == 0
    }
}

impl Default for Timers {
    fn default() -> (r: Timers)
        ensures
            r.wf(),
            r@ == Map::<u128, u64>::empty(),
    {
        Timers::new()
    }
}

} // verus!
