//! The payload store: the text attached to each pending timer.

use vstd::prelude::*;
use std::collections::HashMap;

verus! {

broadcast use vstd::std_specs::hash::group_hash_axioms;

/// Payloads by timer identifier.
pub struct TimerData {
    data: HashMap<u128, String>,
}

impl View for TimerData {
    type V = Map<u128, String>;

    closed spec fn view(&self) -> Map<u128, String> {
        self.data@
    }
}

impl TimerData {
    pub fn new() -> (r: TimerData)
        ensures
            r@ == Map::<u128, String>::empty(),
    {
        TimerData { data: HashMap::new() }
    }

    /// Stores `data` for `timer_id`, replacing what was stored for it.
    pub fn add_data(&mut self, timer_id: u128, data: String)
        ensures
            final(self)@ == old(self)@.insert(timer_id, data),
    {
        self.data.insert(timer_id, data);
    }

    /// Removes and returns the payload of `timer_id`.
    pub fn remove_data(&mut self, timer_id: u128) -> (r: Option<String>)
        ensures
            final(self)@ == old(self)@.remove(timer_id),
            r == (if old(self)@.contains_key(timer_id) {
                Some(old(self)@[timer_id])
            } else {
                None
            }),
    {
        self.data.remove(&timer_id)
    }

    /// A copy of the payload of `timer_id`.
    pub fn get_data(&self, timer_id: u128) -> (r: Option<String>)
        ensures
            r == (if self@.contains_key(timer_id) {
                Some(self@[timer_id])
            } else {
                None
            }),
    {
        match self.data.get(&timer_id) {
            Some(d) => Some(d.clone()),
            None => None,
        }
    }

    pub fn data_count(&self) -> (r: usize)
        ensures
            r == self@.len(),
    {
        self.data.len()
    }
}

impl Default for TimerData {
    fn default() -> (r: TimerData)
        ensures
            r@ == Map::<u128, String>::empty(),
    {
        TimerData::new()
    }
}

} // verus!
