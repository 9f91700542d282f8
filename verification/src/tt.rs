//! Transposition table: three entries per cluster, replaced by age and depth.
use vstd::prelude::*;
use crate::bitmove::BitMove;

verus! {

/// The default number of clusters.
pub const TT_SIZE: usize = 1_048_576;

/// What a stored score says of the true one.
#[derive(Clone, Copy, PartialEq, Eq, Debug, Structural)]
pub enum TTFlag {
    Exact,
    /// The true score is at least this.
    LowerBound,
    /// The true score is at most this.
    UpperBound,
}

#[derive(Clone, Copy, Debug)]
pub struct TTEntry {
    /// The position's hash, to tell positions of one cluster apart.
    pub hash: u64,
    pub depth: u8,
    pub score: i32,
    pub flag: TTFlag,
    /// The search that stored the entry.
    pub generation: u8,
    pub best_move: Option<BitMove>,
}

#[derive(Clone, Copy, Debug)]
pub struct TTCluster {
    pub entries: [Option<TTEntry>; 3],
}

impl TTCluster {
    pub open spec fn is_empty(&self) -> bool {
        self.entries@[0] is None && self.entries@[1] is None && self.entries@[2] is None
    }
}

pub struct TranspositionTable {
    pub clusters: Vec<TTCluster>,
    pub hits: u64,
    pub misses: u64,
    pub generation: u8,
}

/// The entry is for this hash.
pub open spec fn matches_hash(e: Option<TTEntry>, hash: u64) -> bool {
    e matches Some(x) && x.hash == hash
}

/// The first entry of a cluster for a hash.
pub open spec fn find_in(c: TTCluster, hash: u64) -> Option<TTEntry> {
    if matches_hash(c.entries@[0], hash) {
        c.entries@[0]
    } else if matches_hash(c.entries@[1], hash) {
        c.entries@[1]
    } else if matches_hash(c.entries@[2], hash) {
        c.entries@[2]
    } else {
        None
    }
}

/// Searches between two generations, counted on the eight-bit circle.
pub open spec fn age_of(now: u8, then: u8) -> int {
    (now - then) % 256
}

/// Entries with low priority are replaced first.
pub open spec fn priority_of(e: TTEntry, generation: u8) -> int {
    e.depth - age_of(generation, e.generation) * 8
}

/// The slot is empty or already for this hash.
pub open spec fn is_open_slot(e: Option<TTEntry>, hash: u64) -> bool {
    e is None || matches_hash(e, hash)
}

/// The slot a new entry goes to: the first that is empty or for the same hash,
/// else the first of lowest priority.
pub open spec fn slot_for(c: TTCluster, hash: u64, generation: u8) -> int {
    let e = c.entries@;
    if is_open_slot(e[0], hash) {
        0
    } else if is_open_slot(e[1], hash) {
        1
    } else if is_open_slot(e[2], hash) {
        2
    } else {
        let p0 = priority_of(e[0]->0, generation);
        let p1 = priority_of(e[1]->0, generation);
        let p2 = priority_of(e[2]->0, generation);
        if p0 <= p1 && p0 <= p2 {
            0
        } else if p1 <= p2 {
            1
        } else {
            2
        }
    }
}

fn priority(e: &TTEntry, generation: u8) -> (r: i32)
    ensures
        r == priority_of(*e, generation),
{
    let age: u8 = generation.wrapping_sub(e.generation);
    e.depth as i32 - age as i32 * 8
}

/// There is no entry, or one of a search less deep.
pub open spec fn shallower(e: Option<TTEntry>, depth: int) -> bool {
    e matches Some(x) ==> x.depth < depth
}

/// The entry was put into its cluster, in the slot that storing picks; nothing
/// else changed.
#[verifier::opaque]
pub open spec fn stored_in(before: TranspositionTable, after: TranspositionTable, e: TTEntry) -> bool {
    let i = before.index_of(e.hash);
    let c = before.clusters@[i];
    &&& after.clusters@.len() == before.clusters@.len()
    &&& forall|j: int|
        0 <= j < before.clusters@.len() && j != i ==> #[trigger] after.clusters@[j] == before.clusters@[j]
    &&& after.clusters@[i].entries@ == c.entries@.update(slot_for(c, e.hash, before.generation), Some(e))
    &&& after.find(e.hash) == Some(e)
    &&& after.hits == before.hits
    &&& after.misses == before.misses
    &&& after.generation == before.generation
}

impl TranspositionTable {
    pub open spec fn wf(&self) -> bool {
        self.clusters@.len() > 0
    }

    pub open spec fn index_of(&self, hash: u64) -> int {
        hash as int % self.clusters@.len() as int
    }

    /// The entry a probe for `hash` finds.
    pub open spec fn find(&self, hash: u64) -> Option<TTEntry> {
        find_in(self.clusters@[self.index_of(hash)], hash)
    }

    pub fn new(size: usize) -> (r: Self)
        ensures
            r.clusters@.len() == size,
            forall|i: int| 0 <= i < size ==> (#[trigger] r.clusters@[i]).is_empty(),
            r.hits == 0,
            r.misses == 0,
            r.generation == 0,
    {
        let mut clusters: Vec<TTCluster> = Vec::with_capacity(size);
        let mut i: usize = 0;
        while i < size
            invariant
                i <= size,
                clusters@.len() == i,
                forall|k: int| 0 <= k < i ==> (#[trigger] clusters@[k]).is_empty(),
            decreases size - i,
        {
            let c = TTCluster { entries: [None, None, None] };
            clusters.push(c);
            i = i + 1;
        }
        TranspositionTable { clusters, hits: 0, misses: 0, generation: 0 }
    }

    /// Starts a new generation.
    pub fn new_search(&mut self)
        ensures
            final(self).clusters == old(self).clusters,
            final(self).hits == old(self).hits,
            final(self).misses == old(self).misses,
            final(self).generation == (old(self).generation + 1) % 256,
    {
        self.generation = self.generation.wrapping_add(1);
    }

    fn index(&self, hash: u64) -> (r: usize)
        requires
            self.wf(),
        ensures
            r == self.index_of(hash),
            r < self.clusters@.len(),
    {
        (hash % (self.clusters.len() as u64)) as usize
    }

    /// The entry for a hash, of whatever generation.
    pub fn probe(&mut self, hash: u64) -> (r: Option<TTEntry>)
        requires
            old(self).wf(),
        ensures
            r == old(self).find(hash),
            r matches Some(e) ==> e.hash == hash,
            final(self).clusters == old(self).clusters,
            final(self).generation == old(self).generation,
            r is Some ==> final(self).misses == old(self).misses && final(self).hits == (if old(self).hits == u64::MAX {
                u64::MAX as int
            } else {
                old(self).hits + 1
            }),
            r is None ==> final(self).hits == old(self).hits && final(self).misses == (if old(self).misses == u64::MAX {
                u64::MAX as int
            } else {
                old(self).misses + 1
            }),
    {
        let idx: usize = self.index(hash);
        let cluster: TTCluster = self.clusters[idx];
        let mut i: usize = 0;
        while i < 3
            invariant
                i <= 3,
                *self == *old(self),
                cluster == self.clusters@[self.index_of(hash)],
                forall|k: int| 0 <= k < i ==> !matches_hash(#[trigger] cluster.entries@[k], hash),
            decreases 3 - i,
        {
            if let Some(e) = cluster.entries[i] {
                if e.hash == hash {
                    self.hits = self.hits.saturating_add(1);
                    return Some(e);
                }
            }
            i = i + 1;
        }
        self.misses = self.misses.saturating_add(1);
        None
    }

    /// Stores an entry, replacing what `slot_for` names.
    pub fn store(&mut self, hash: u64, depth: u8, score: i32, flag: TTFlag, best_move: Option<BitMove>)
        requires
            old(self).wf(),
        ensures
            final(self).wf(),
            ({
                let i = old(self).index_of(hash);
                let c = old(self).clusters@[i];
                let e = TTEntry { hash, depth, score, flag, generation: old(self).generation, best_move };
                let k = slot_for(c, hash, old(self).generation);
                &&& final(self).clusters@.len() == old(self).clusters@.len()
                &&& forall|j: int|
                    0 <= j < old(self).clusters@.len() && j != i ==> #[trigger] final(self).clusters@[j]
                        == old(self).clusters@[j]
                &&& final(self).clusters@[i].entries@ == c.entries@.update(k, Some(e))
                &&& final(self).find(hash) == Some(e)
            }),
            final(self).hits == old(self).hits,
            final(self).misses == old(self).misses,
            final(self).generation == old(self).generation,
    {
        let idx: usize = self.index(hash);
        let mut cluster: TTCluster = self.clusters[idx];
        let ghost before = cluster;
        let mut replace_idx: usize = 0;
        let mut worst_priority: i32 = i32::MAX;
        let mut i: usize = 0;
        let mut found: bool = false;
        while i < 3 && !found
            invariant
                i <= 3,
                *self == *old(self),
                cluster == before,
                idx == self.index_of(hash),
                idx < self.clusters@.len(),
                before == self.clusters@[idx as int],
                replace_idx < 3,
                forall|k: int| 0 <= k < i && !found ==> !is_open_slot(#[trigger] before.entries@[k], hash),
                found ==> 1 <= i && replace_idx == i - 1 && is_open_slot(before.entries@[i - 1], hash) && forall|k: int|
                    0 <= k < i - 1 ==> !is_open_slot(#[trigger] before.entries@[k], hash),
                !found ==> (i == 0 ==> worst_priority == i32::MAX),
                !found && i > 0 ==> replace_idx < i && worst_priority == priority_of(
                    before.entries@[replace_idx as int]->0,
                    self.generation,
                ),
                !found ==> forall|k: int|
                    0 <= k < i ==> worst_priority <= priority_of(#[trigger] before.entries@[k]->0, self.generation),
                !found ==> forall|k: int|
                    0 <= k < replace_idx ==> worst_priority < priority_of(
                        #[trigger] before.entries@[k]->0,
                        self.generation,
                    ),
            decreases 3 - i, (if found { 0int } else { 1int }),
        {
            match cluster.entries[i] {
                None => {
                    replace_idx = i;
                    found = true;
                },
                Some(e) => {
                    if e.hash == hash {
                        replace_idx = i;
                        found = true;
                    } else {
                        let p: i32 = priority(&e, self.generation);
                        if p < worst_priority {
                            worst_priority = p;
                            replace_idx = i;
                        }
                    }
                },
            }
            i = i + 1;
        }
        proof {
            let e = before.entries@;
            assert(e[0] == before.entries@[0] && e[1] == before.entries@[1] && e[2] == before.entries@[2]);
            assert(replace_idx == slot_for(before, hash, self.generation));
        }
        cluster.entries[replace_idx] = Some(
            TTEntry { hash, depth, score, flag, generation: self.generation, best_move },
        );
        self.clusters.set(idx, cluster);
        proof {
            let e = TTEntry { hash, depth, score, flag, generation: self.generation, best_move };
            assert(cluster.entries@ =~= before.entries@.update(replace_idx as int, Some(e)));
        }
    }

    /// Forgets the statistics and starts a new generation; entries stay
    /// visible but age.
    pub fn clear(&mut self)
        ensures
            final(self).clusters == old(self).clusters,
            final(self).generation == (old(self).generation + 1) % 256,
            final(self).hits == 0,
            final(self).misses == 0,
    {
        self.generation = self.generation.wrapping_add(1);
        self.hits = 0;
        self.misses = 0;
    }

    /// Removes every entry.
    pub fn wipe(&mut self)
        ensures
            final(self).clusters@.len() == old(self).clusters@.len(),
            forall|i: int|
                0 <= i < old(self).clusters@.len() ==> (#[trigger] final(self).clusters@[i]).is_empty(),
            final(self).generation == 0,
            final(self).hits == 0,
            final(self).misses == 0,
    {
        let n: usize = self.clusters.len();
        let mut i: usize = 0;
        while i < n
            invariant
                i <= n,
                n == self.clusters@.len(),
                n == old(self).clusters@.len(),
                forall|k: int| 0 <= k < i ==> (#[trigger] self.clusters@[k]).is_empty(),
            decreases n - i,
        {
            let c = TTCluster { entries: [None, None, None] };
            self.clusters.set(i, c);
            i = i + 1;
        }
        self.generation = 0;
        self.hits = 0;
        self.misses = 0;
    }
}

/// An empty table finds nothing.
pub proof fn law_empty_table_finds_nothing(t: TranspositionTable, hash: u64)
    requires
        t.wf(),
        forall|i: int| 0 <= i < t.clusters@.len() ==> (#[trigger] t.clusters@[i]).is_empty(),
    ensures
        t.find(hash) is None,
{
    let c = t.clusters@[t.index_of(hash)];
    assert(c.is_empty());
}

/// A store leaves what is found for another hash as it was, unless it takes
/// that entry's slot.
pub proof fn law_store_keeps_others(a: TTCluster, b: TTCluster, k: int, e: TTEntry, other: u64)
    requires
        0 <= k < 3,
        b.entries@ == a.entries@.update(k, Some(e)),
        e.hash != other,
        !matches_hash(a.entries@[k], other),
    ensures
        find_in(b, other) == find_in(a, other),
{
}

} // verus!
