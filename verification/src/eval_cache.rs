//! A direct-mapped cache of evaluations.
use vstd::prelude::*;

verus! {

/// Number of slots, a power of two.
pub const EVAL_CACHE_SIZE: usize = 65536;

#[derive(Clone, Copy, Debug)]
pub struct EvalCacheEntry {
    pub hash: u64,
    pub score: i32,
    pub generation: u8,
}

pub struct EvalCache {
    pub entries: Vec<EvalCacheEntry>,
    pub hits: u64,
    pub misses: u64,
    pub generation: u8,
}

/// The low sixteen bits are the remainder by the number of slots.
proof fn lemma_slot_bits(hash: u64)
    by (bit_vector)
    ensures
        hash & 0xffff == hash % 0x10000,
        hash & 0xffff < 0x10000,
{
}

impl EvalCache {
    pub open spec fn wf(&self) -> bool {
        self.entries@.len() == EVAL_CACHE_SIZE
    }

    pub open spec fn index_of(hash: u64) -> int {
        hash as int % 65536
    }

    /// What a probe answers: the slot's score if it was stored for this hash
    /// since the last clearing.
    pub open spec fn find(&self, hash: u64) -> Option<i32> {
        let e = self.entries@[EvalCache::index_of(hash)];
        if e.hash == hash && e.generation == self.generation {
            Some(e.score)
        } else {
            None
        }
    }

    pub fn new() -> (r: Self)
        ensures
            r.wf(),
            r.hits == 0,
            r.misses == 0,
            r.generation == 0,
            forall|i: int|
                0 <= i < EVAL_CACHE_SIZE ==> #[trigger] r.entries@[i] == (EvalCacheEntry {
                    hash: 0,
                    score: 0,
                    generation: 0,
                }),
    {
        let mut entries: Vec<EvalCacheEntry> = Vec::with_capacity(EVAL_CACHE_SIZE);
        let mut i: usize = 0;
        while i < EVAL_CACHE_SIZE
            invariant
                i <= EVAL_CACHE_SIZE,
                entries@.len() == i,
                forall|k: int|
                    0 <= k < i ==> #[trigger] entries@[k] == (EvalCacheEntry { hash: 0, score: 0, generation: 0 }),
            decreases EVAL_CACHE_SIZE - i,
        {
            entries.push(EvalCacheEntry { hash: 0, score: 0, generation: 0 });
            i = i + 1;
        }
        EvalCache { entries, hits: 0, misses: 0, generation: 0 }
    }

    fn index(&self, hash: u64) -> (r: usize)
        ensures
            r == EvalCache::index_of(hash),
            r < EVAL_CACHE_SIZE,
    {
        proof {
            lemma_slot_bits(hash);
        }
        (hash & 0xffff) as usize
    }

    /// The cached score of a hash, if there is one.
    pub fn probe(&mut self, hash: u64) -> (r: Option<i32>)
        requires
            old(self).wf(),
        ensures
            r == old(self).find(hash),
            final(self).wf(),
            final(self).entries == old(self).entries,
            final(self).generation == old(self).generation,
            r is Some ==> final(self).misses == old(self).misses && final(self).hits == (if old(self).hits == u64::MAX {
                u64::MAX as int
            } else {
                old(self).hits + 1
            }),
            r is None ==> final(self).hits == old(self).hits && final(self).misses == (if old(self).misses == u64::MAX {
                u64::MAX as int
            } else {
                old(self).misses + 1
            }),
    {
        let idx: usize = self.index(hash);
        let entry: EvalCacheEntry = self.entries[idx];
        if entry.hash == hash && entry.generation == self.generation {
            self.hits = self.hits.saturating_add(1);
            Some(entry.score)
        } else {
            self.misses = self.misses.saturating_add(1);
            None
        }
    }

    /// Caches the score of a hash in its slot.
    pub fn store(&mut self, hash: u64, score: i32)
        requires
            old(self).wf(),
        ensures
            final(self).wf(),
            final(self).find(hash) == Some(score),
            final(self).entries@ == old(self).entries@.update(
                EvalCache::index_of(hash),
                EvalCacheEntry { hash, score, generation: old(self).generation },
            ),
            final(self).generation == old(self).generation,
            final(self).hits == old(self).hits,
            final(self).misses == old(self).misses,
    {
        let idx: usize = self.index(hash);
        self.entries.set(idx, EvalCacheEntry { hash, score, generation: self.generation });
    }

    /// Forgets everything stored so far by starting a new generation. After
    /// 256 clearings an entry of the first generation would be visible again.
    pub fn clear(&mut self)
        requires
            old(self).wf(),
        ensures
            final(self).wf(),
            final(self).entries == old(self).entries,
            final(self).generation == (old(self).generation + 1) % 256,
            final(self).hits == 0,
            final(self).misses == 0,
            forall|h: u64|
                old(self).entries@[EvalCache::index_of(h)].generation == old(self).generation ==> #[trigger] final(self).find(h) is None,
    {
        self.generation = self.generation.wrapping_add(1);
        self.hits = 0;
        self.misses = 0;
    }
}

} // verus!
