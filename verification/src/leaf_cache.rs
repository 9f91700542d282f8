//! A bounded memory of evaluations by position hash.
use vstd::prelude::*;
use std::collections::HashMap;

verus! {

/// The most positions that are remembered at once.
pub const CACHE_LIMIT: usize = 100_000;

/// Evaluations by hash. A full cache is emptied before the next entry.
pub struct LeafCache<T> {
    pub entries: HashMap<u64, T>,
}

/// The memory with one more evaluation; a full one is emptied before.
pub open spec fn remembers<T>(m: Map<u64, T>, hash: u64, x: T) -> Map<u64, T> {
    (if m.len() < CACHE_LIMIT {
        m
    } else {
        Map::empty()
    }).insert(hash, x)
}

impl<T> LeafCache<T> {
    pub open spec fn view(&self) -> Map<u64, T> {
        self.entries@
    }

    pub open spec fn wf(&self) -> bool {
        self@.dom().finite() && self@.len() <= CACHE_LIMIT
    }

    /// An empty cache.
    pub fn new() -> (r: Self)
        ensures
            r.wf(),
            r@ == Map::<u64, T>::empty(),
    {
        broadcast use vstd::std_specs::hash::group_hash_axioms;

        LeafCache { entries: HashMap::new() }
    }

    /// What is remembered of a hash.
    pub fn get(&self, hash: u64) -> (r: Option<&T>)
        ensures
            match r {
                Some(x) => self@.dom().contains(hash) && *x == self@[hash],
                None => !self@.dom().contains(hash),
            },
    {
        broadcast use vstd::std_specs::hash::group_hash_axioms;

        self.entries.get(&hash)
    }

    /// Remembers an evaluation.
    pub fn put(&mut self, hash: u64, x: T)
        requires
            old(self).wf(),
        ensures
            final(self).wf(),
            final(self)@ == remembers(old(self)@, hash, x),
    {
        broadcast use vstd::std_specs::hash::group_hash_axioms;

        if self.entries.len() >= CACHE_LIMIT {
            self.entries.clear();
        }
        self.entries.insert(hash, x);
    }

    /// Forgets everything.
    pub fn clear(&mut self)
        ensures
            final(self).wf(),
            final(self)@ == Map::<u64, T>::empty(),
    {
        broadcast use vstd::std_specs::hash::group_hash_axioms;

        self.entries.clear();
    }
}

} // verus!
