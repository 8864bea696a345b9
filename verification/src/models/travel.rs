//! Travel times between stores.

use vstd::prelude::*;
use std::collections::HashMap;
use crate::models::{StoreId, Time};

verus! {

broadcast use vstd::std_specs::hash::group_hash_axioms;

/// The travel times between ordered pairs of stores. A pair without an entry
/// is a leg that cannot be travelled.
#[derive(Debug, Clone)]
pub struct TravelMatrix {
    /// The travel time of each pair, under the key of the pair.
    pub times: HashMap<u64, Time>,
}

/// The key under which the leg from `from` to `to` is kept.
pub open spec fn pair_key(from: StoreId, to: StoreId) -> u64 {
    (from as u64 * 0x1_0000_0000 + to as u64) as u64
}

/// Different legs have different keys.
pub proof fn lemma_pair_key_injective(a: StoreId, b: StoreId, c: StoreId, d: StoreId)
    requires
        pair_key(a, b) == pair_key(c, d),
    ensures
        a == c,
        b == d,
{
}

/// The key under which the leg from `from` to `to` is kept.
pub fn key_of(from: StoreId, to: StoreId) -> (key: u64)
    ensures
        key == pair_key(from, to),
{
    (from as u64) * 0x1_0000_0000 + (to as u64)
}

impl TravelMatrix {
    /// The travel time from `from` to `to`, if the leg can be travelled.
    pub open spec fn time(&self, from: StoreId, to: StoreId) -> Option<Time> {
        if self.times@.contains_key(pair_key(from, to)) {
            Some(self.times@[pair_key(from, to)])
        } else {
            None
        }
    }

    /// Creates a matrix without any leg.
    pub fn new() -> (r: Self)
        ensures
            forall|from: StoreId, to: StoreId| r.time(from, to) is None,
            r.times@ == Map::<u64, Time>::empty(),
    {
        Self { times: HashMap::new() }
    }

    /// Sets the travel time from `from` to `to`.
    pub fn insert(&mut self, from: StoreId, to: StoreId, time: Time)
        ensures
            final(self).times@ == old(self).times@.insert(pair_key(from, to), time),
            final(self).time(from, to) == Some(time),
            forall|a: StoreId, b: StoreId|
                (a != from || b != to) ==> final(self).time(a, b) == old(self).time(a, b),
    {
        self.times.insert(key_of(from, to), time);
        proof {
            assert forall|a: StoreId, b: StoreId| (a != from || b != to) implies self.time(a, b)
                == old(self).time(a, b) by {
                if pair_key(a, b) == pair_key(from, to) {
                    lemma_pair_key_injective(a, b, from, to);
                }
            }
        }
    }

    /// The travel time from `from` to `to`, if the leg can be travelled.
    pub fn get(&self, from: StoreId, to: StoreId) -> (r: Option<Time>)
        ensures
            r == self.time(from, to),
    {
        match self.times.get(&key_of(from, to)) {
            Some(time) => Some(*time),
            None => None,
        }
    }

    /// The number of legs with a travel time.
    pub fn len(&self) -> (r: usize)
        ensures
            r == self.times@.dom().len(),
    {
        self.times.len()
    }
}

} // verus!
