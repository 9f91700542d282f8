//! Creating, resetting and tuning an engine.
use vstd::prelude::*;
use std::sync::atomic::AtomicBool;
use std::sync::Arc;
use crate::accumulator::DualAccumulatorStack;
use crate::bitboard::BitBoard;
use crate::bitmove::BitMove;
use crate::board::Player;
use crate::clock::{is_raised, StopHandle};
use crate::engine::{
    one_more, within, BitBoardEngine, NoOutput, OutputLayer, SearchKnobs, CORRECTION_TABLE_SIZE, HISTORY_SIZE, LMR_TABLE,
};
use crate::deepening::law_fresh_engine_is_sound;
use crate::eval_cache::{EvalCache, EvalCacheEntry};
use crate::heuristic::{heuristic_of, EvalWeights, EVAL_LIMIT};
use crate::network::SparseNNUE;
use crate::node::keyed;
use crate::race::RaceTable;
use crate::squares::MAX_DEPTH;
use crate::tablebase::Tablebase;
use crate::tt::{TranspositionTable, TT_SIZE};

verus! {

#[verifier::spinoff_prover]
fn zeros(n: usize) -> (r: Vec<i32>)
    ensures
        r@.len() == n,
        forall|i: int| 0 <= i < n ==> #[trigger] r@[i] == 0,
{
    let mut r: Vec<i32> = Vec::with_capacity(n);
    let mut i: usize = 0;
    while i < n
        invariant
            i <= n,
            r@.len() == i,
            forall|k: int| 0 <= k < i ==> #[trigger] r@[k] == 0,
        decreases n - i,
    {
        r.push(0);
        i = i + 1;
    }
    r
}

/// No killer move at any depth.
pub open spec fn no_killers(v: Seq<(Option<BitMove>, Option<BitMove>)>) -> bool {
    v.len() == MAX_DEPTH && forall|i: int| 0 <= i < v.len() ==> (#[trigger] v[i]).0 is None && v[i].1 is None
}

#[verifier::spinoff_prover]
pub(crate) fn fresh_killers() -> (r: Vec<(Option<BitMove>, Option<BitMove>)>)
    ensures
        no_killers(r@),
{
    let mut r: Vec<(Option<BitMove>, Option<BitMove>)> = Vec::with_capacity(MAX_DEPTH);
    let mut i: usize = 0;
    while i < MAX_DEPTH
        invariant
            i <= MAX_DEPTH,
            r@.len() == i,
            forall|k: int| 0 <= k < i ==> (#[trigger] r@[k]).0 is None && r@[k].1 is None,
        decreases MAX_DEPTH - i,
    {
        r.push((None, None));
        i = i + 1;
    }
    r
}

/// Half, with the fraction dropped.
pub open spec fn halved(x: i32) -> int {
    if x >= 0 {
        x as int / 2
    } else {
        -((-x) / 2)
    }
}

#[verifier::spinoff_prover]
fn halve_all(v: &mut Vec<i32>)
    requires
        forall|i: int| 0 <= i < old(v)@.len() ==> #[trigger] old(v)@[i] > i32::MIN,
    ensures
        final(v)@.len() == old(v)@.len(),
        forall|i: int| 0 <= i < old(v)@.len() ==> #[trigger] final(v)@[i] == halved(old(v)@[i]),
{
    let ghost before = v@;
    let n: usize = v.len();
    let mut i: usize = 0;
    while i < n
        invariant
            i <= n,
            n == v@.len(),
            n == before.len(),
            forall|k: int| 0 <= k < n ==> #[trigger] before[k] > i32::MIN,
            forall|k: int| 0 <= k < n ==> #[trigger] v@[k] == (if k < i { halved(before[k]) } else { before[k] as int }),
        decreases n - i,
    {
        let x: i32 = v[i];
        assert(before[i as int] > i32::MIN);
        let h: i32 = if x >= 0 { x / 2 } else { -((-x) / 2) };
        v.set(i, h);
        i = i + 1;
    }
}

/// The hash of a position tells its evaluation: no game position that is worth
/// something else shares it.
#[verifier::opaque]
pub open spec fn tells_eval(w: EvalWeights, bb: BitBoard) -> bool {
    forall|c: BitBoard| #[trigger] keyed(c) && c.hash == bb.hash ==> heuristic_of(w, c) == heuristic_of(w, bb)
}

/// Some game position with this hash is worth `s`.
pub open spec fn worth_of_hash(w: EvalWeights, hash: u64, s: int) -> bool {
    exists|c: BitBoard| #[trigger] keyed(c) && c.hash == hash && s == heuristic_of(w, c)
}

/// An evaluation this far from zero is nowhere near a winning score.
pub const MILD_EVAL: i32 = 50_000;

/// All cached scores are far from winning scores.
#[verifier::opaque]
pub open spec fn mild_cache(c: EvalCache) -> bool {
    forall|i: int| 0 <= i < c.entries@.len() ==> -MILD_EVAL <= (#[trigger] c.entries@[i]).score <= MILD_EVAL
}

/// How far a search has counted beyond its looks at the clock: the nodes, less
/// those since the last look; a stop takes a whole round of them. A count that
/// is as high as it can be is beyond all others.
#[verifier::opaque]
pub open spec fn headway(nodes: u64, stopped: bool, pending: u32) -> int {
    if nodes == u64::MAX {
        0x2_0000_0000_0000_0000
    } else {
        nodes - if stopped {
            1024
        } else {
            pending as int
        }
    }
}

/// A look at the clock that a node is counted for makes no headway vanish.
pub(crate) proof fn lemma_headway(n0: u64, s0: bool, p0: u32, n1: u64, s1: bool, p1: u32)
    requires
        n1 == if n0 == u64::MAX {
            u64::MAX as int
        } else {
            n0 + 1
        },
        p0 < 1024,
        s0 ==> s1,
        p0 < 1023 && !s0 ==> !s1,
        p1 == if s0 {
            p0 as int
        } else {
            (p0 + 1) % 1024
        },
    ensures
        headway(n1, s1, p1) >= headway(n0, s0, p0),
{
    reveal(headway);
}

impl<L: OutputLayer> BitBoardEngine<L> {
    /// A stop that was noticed on the way took a whole round of nodes.
    pub open spec fn stops_in_time(&self, after: Self) -> bool {
        &&& !self.search_stopped && after.search_stopped ==> after.nodes_searched >= 1024 - self.nodes_since_check
        &&& !after.search_stopped ==> after.nodes_since_check <= self.nodes_since_check + after.nodes_searched
    }

    /// An engine without a network, with the tuned settings, whose networks
    /// will end in `output`.
    #[verifier::spinoff_prover]
    pub fn with_output(output: L) -> (r: Self)
        ensures
            r.wf(),
            r.output == output,
            r.is_fresh(),
            r.weights == EvalWeights::spec_tuned(),
            r.knobs == SearchKnobs::spec_tuned(),
            r.lmr_table == LMR_TABLE,
            r.nnue is None,
            r.tablebase is None,
            r.contempt == 0,
            r.no_progress_limit == 60,
            r.deadline is None,
            !r.search_stopped,
            r.root_player == Player::White,
            r.last_completed_depth == 0,
            r.tb_hits == 0,
            r.sound(),
    {
        reveal(BitBoardEngine::tables_ok);
        let tt = TranspositionTable::new(TT_SIZE);
        let eval_cache = EvalCache::new();
        let r = BitBoardEngine {
            nodes_searched: 0,
            cutoffs: 0,
            tt_hits: 0,
            quiesce_nodes: 0,
            eval_cache_hits: 0,
            tb_hits: 0,
            tt,
            eval_cache,
            killer_moves: fresh_killers(),
            history: zeros(HISTORY_SIZE),
            cont_history: zeros(HISTORY_SIZE),
            correction_history: zeros(CORRECTION_TABLE_SIZE),
            prev_move: None,
            nnue: None,
            output,
            tablebase: None,
            acc_stack: DualAccumulatorStack::new(),
            deadline: None,
            nodes_since_check: 0,
            search_stopped: false,
            last_completed_depth: 0,
            stop_flag: Arc::new(AtomicBool::new(false)),
            lmr_table: LMR_TABLE,
            game_history: Vec::new(),
            path_hashes: Vec::new(),
            contempt: 0,
            no_progress_limit: 60,
            root_player: Player::White,
            weights: EvalWeights::tuned(),
            knobs: SearchKnobs::tuned(),
            race: RaceTable::build(),
        };
        proof {
            reveal(mild_cache);
            reveal(crate::heuristic::size);
            law_fresh_engine_is_sound(r);
        }
        r
    }

    /// Nothing of an earlier search or game is left: the tables are empty, the
    /// statistics and histories are zero.
    pub open spec fn is_fresh(&self) -> bool {
        &&& forall|i: int| 0 <= i < self.tt.clusters@.len() ==> (#[trigger] self.tt.clusters@[i]).is_empty()
        &&& self.tt.hits == 0
        &&& self.tt.misses == 0
        &&& no_killers(self.killer_moves@)
        &&& within(self.history@, 1296, 0, 0)
        &&& within(self.cont_history@, 1296, 0, 0)
        &&& within(self.correction_history@, 16384, 0, 0)
        &&& self.prev_move is None
        &&& self.game_history@.len() == 0
        &&& self.path_hashes@.len() == 0
        &&& self.acc_stack.depth == 0
        &&& self.nodes_searched == 0
        &&& self.cutoffs == 0
        &&& self.tt_hits == 0
        &&& self.quiesce_nodes == 0
        &&& self.eval_cache_hits == 0
    }

    /// Takes a reduction table made for another divisor.
    #[verifier::spinoff_prover]
    pub fn set_lmr_div(&mut self, div_x100: i32, table: [[u8; 64]; 32])
        requires
            old(self).wf(),
        ensures
            final(self).wf(),
            *final(self) == (BitBoardEngine {
                lmr_table: table,
                knobs: SearchKnobs { lmr_div: div_x100, ..old(self).knobs },
                ..*old(self)
            }),
    {
        reveal(BitBoardEngine::tables_ok);
        self.knobs.lmr_div = div_x100;
        self.lmr_table = table;
    }

    /// Forgets histories and the previous move.
    #[verifier::spinoff_prover]
    pub fn clear_history(&mut self)
        requires
            old(self).wf(),
        ensures
            final(self).wf(),
            within(final(self).history@, 1296, 0, 0),
            within(final(self).cont_history@, 1296, 0, 0),
            within(final(self).correction_history@, 16384, 0, 0),
            final(self).prev_move is None,
            *final(self) == (BitBoardEngine {
                history: final(self).history,
                cont_history: final(self).cont_history,
                correction_history: final(self).correction_history,
                prev_move: None,
                ..*old(self)
            }),
    {
        reveal(BitBoardEngine::tables_ok);
        self.history = zeros(HISTORY_SIZE);
        self.cont_history = zeros(HISTORY_SIZE);
        self.correction_history = zeros(CORRECTION_TABLE_SIZE);
        self.prev_move = None;
    }

    /// Halves histories, so that they adapt.
    #[verifier::spinoff_prover]
    pub(crate) fn age_history(&mut self)
        requires
            old(self).wf(),
        ensures
            final(self).wf(),
            forall|i: int| 0 <= i < 1296 ==> #[trigger] final(self).history@[i] == halved(old(self).history@[i]),
            forall|i: int|
                0 <= i < 1296 ==> #[trigger] final(self).cont_history@[i] == halved(old(self).cont_history@[i]),
            forall|i: int|
                0 <= i < 16384 ==> #[trigger] final(self).correction_history@[i] == halved(
                    old(self).correction_history@[i],
                ),
            *final(self) == (BitBoardEngine {
                history: final(self).history,
                cont_history: final(self).cont_history,
                correction_history: final(self).correction_history,
                ..*old(self)
            }),
    {
        reveal(BitBoardEngine::tables_ok);
        halve_all(&mut self.history);
        halve_all(&mut self.cont_history);
        halve_all(&mut self.correction_history);
    }

    /// Evaluates by a network from now on.
    #[verifier::spinoff_prover]
    pub fn load_nnue(&mut self, net: SparseNNUE)
        requires
            old(self).wf(),
            net.wf(),
        ensures
            final(self).wf(),
            *final(self) == (BitBoardEngine {
                nnue: Some(net),
                eval_cache: final(self).eval_cache,
                ..*old(self)
            }),
            final(self).eval_cache.generation == (old(self).eval_cache.generation + 1) % 256,
    {
        reveal(BitBoardEngine::tables_ok);
        self.nnue = Some(net);
        self.eval_cache.clear();
    }

    /// Evaluates by the handcrafted terms from now on.
    #[verifier::spinoff_prover]
    pub fn clear_nnue(&mut self)
        requires
            old(self).wf(),
        ensures
            final(self).wf(),
            *final(self) == (BitBoardEngine { nnue: None, eval_cache: final(self).eval_cache, ..*old(self) }),
            final(self).eval_cache.generation == (old(self).eval_cache.generation + 1) % 256,
    {
        reveal(BitBoardEngine::tables_ok);
        self.nnue = None;
        self.eval_cache.clear();
    }

    /// Probes these tables from now on.
    #[verifier::spinoff_prover]
    pub fn load_tablebase(&mut self, tb: Tablebase)
        requires
            old(self).wf(),
            tb.wf(),
        ensures
            final(self).wf(),
            *final(self) == (BitBoardEngine { tablebase: Some(tb), ..*old(self) }),
    {
        reveal(BitBoardEngine::tables_ok);
        self.tablebase = Some(tb);
    }

    /// Lets the entries of the table of positions age and zeroes its statistics.
    #[verifier::spinoff_prover]
    pub fn clear_tt(&mut self)
        requires
            old(self).wf(),
        ensures
            final(self).wf(),
            *final(self) == (BitBoardEngine { tt: final(self).tt, ..*old(self) }),
            final(self).tt.clusters == old(self).tt.clusters,
            final(self).tt.hits == 0,
            final(self).tt.misses == 0,
            final(self).tt.generation == (old(self).tt.generation + 1) % 256,
    {
        reveal(BitBoardEngine::tables_ok);
        self.tt.clear();
    }

    /// Forgets everything of earlier searches and games.
    #[verifier::spinoff_prover]
    pub fn full_reset(&mut self)
        requires
            old(self).wf(),
        ensures
            final(self).wf(),
            final(self).is_fresh(),
            final(self).eval_cache.generation == (old(self).eval_cache.generation + 1) % 256,
            final(self).fixed() == (crate::engine::Fixed { game_history: Seq::empty(), ..old(self).fixed() }),
            final(self).search_stopped == old(self).search_stopped,
            final(self).deadline == old(self).deadline,
            final(self).nodes_since_check == old(self).nodes_since_check,
    {
        reveal(BitBoardEngine::tables_ok);
        self.tt.wipe();
        self.eval_cache.clear();
        self.clear_history();
        self.killer_moves = fresh_killers();
        self.game_history = Vec::new();
        self.path_hashes = Vec::new();
        self.acc_stack.reset();
        self.nodes_searched = 0;
        self.cutoffs = 0;
        self.tt_hits = 0;
        self.quiesce_nodes = 0;
        self.eval_cache_hits = 0;
        assert(self.game_history@ =~= Seq::empty());
    }

    /// Hits and misses of the table of positions.
    #[verifier::spinoff_prover]
    pub fn get_tt_stats(&self) -> (r: (u64, u64))
        ensures
            r == (self.tt.hits, self.tt.misses),
    {
        (self.tt.hits, self.tt.misses)
    }

    /// Hits and misses of the evaluation cache.
    #[verifier::spinoff_prover]
    pub fn get_eval_cache_stats(&self) -> (r: (u64, u64))
        ensures
            r == (self.eval_cache.hits, self.eval_cache.misses),
    {
        (self.eval_cache.hits, self.eval_cache.misses)
    }

    /// Forgets cached evaluations.
    #[verifier::spinoff_prover]
    pub fn clear_eval_cache(&mut self)
        requires
            old(self).wf(),
        ensures
            final(self).wf(),
            *final(self) == (BitBoardEngine { eval_cache: final(self).eval_cache, ..*old(self) }),
            final(self).eval_cache.generation == (old(self).eval_cache.generation + 1) % 256,
            final(self).eval_cache.hits == 0,
            final(self).eval_cache.misses == 0,
    {
        reveal(BitBoardEngine::tables_ok);
        self.eval_cache.clear();
    }

    /// A handle that stops searches of this engine.
    #[verifier::spinoff_prover]
    pub fn stop_handle(&self) -> (r: StopHandle)
        ensures
            r.flag == self.stop_flag,
    {
        StopHandle::of(&self.stop_flag)
    }

    /// The handcrafted evaluation of a position.
    #[verifier::spinoff_prover]
    pub fn evaluate_heuristic(&self, bb: &BitBoard) -> (r: i32)
        requires
            self.wf(),
            bb.wf(),
        ensures
            r == heuristic_of(self.weights, *bb),
            -EVAL_LIMIT <= r <= EVAL_LIMIT,
            bb@.winner() is None ==> -self.weights.reach() <= r <= self.weights.reach(),
    {
        reveal(BitBoardEngine::tables_ok);
        self.weights.evaluate(bb, &self.race)
    }

    /// What an engine without a network evaluates a board to: the cached score
    /// of its hash if there is one, else the handcrafted evaluation.
    pub open spec fn static_eval(&self, bb: BitBoard) -> int {
        match self.eval_cache.find(bb.hash) {
            Some(s) => s as int,
            None => heuristic_of(self.weights, bb),
        }
    }

    /// Every cached score that a game position finds is the evaluation of a game
    /// position with its hash.
    #[verifier::opaque]
    pub open spec fn honest(&self) -> bool {
        forall|b: BitBoard| #[trigger]
            keyed(b) ==> (self.eval_cache.find(b.hash) matches Some(s) ==> worth_of_hash(self.weights, b.hash, s as int))
    }

    /// The network's score of a position: the last layer's result on the sums of
    /// the accumulators on top of the stack, held within the evaluation's bounds.
    pub open spec fn network_says(&self, net: SparseNNUE, bb: BitBoard, r: int) -> bool {
        exists|head: usize, sums: Vec<i32>, cp: i32|
            #![trigger call_ensures(L::centipawns, (&self.output, head, &sums), cp)]
            {
                &&& head == net.head_of(bb)
                &&& sums@.len() == net.config.hidden2
                &&& forall|n: int| 0 <= n < sums@.len() ==> #[trigger] sums@[n] == net.sum_at(bb, self.acc_stack.top(), n)
                &&& call_ensures(L::centipawns, (&self.output, head, &sums), cp)
                &&& r == if cp > EVAL_LIMIT {
                    EVAL_LIMIT as int
                } else if cp < -EVAL_LIMIT {
                    -EVAL_LIMIT as int
                } else {
                    cp as int
                }
            }
    }

    /// A position is evaluated: by the cache if it knows the hash, else by the
    /// network if there is one, else by the handcrafted terms. The cache then
    /// knows the score.
    #[verifier::opaque]
    pub open spec fn evaluates(&self, after: Self, bb: BitBoard, r: i32) -> bool {
        &&& after == (BitBoardEngine {
            eval_cache: after.eval_cache,
            eval_cache_hits: after.eval_cache_hits,
            ..*self
        })
        &&& after.eval_cache.find(bb.hash) == Some(r)
        &&& after.eval_cache.generation == self.eval_cache.generation
        &&& match self.eval_cache.find(bb.hash) {
            Some(s) => {
                &&& r == s
                &&& after.eval_cache_hits == one_more(self.eval_cache_hits)
                &&& after.eval_cache.entries == self.eval_cache.entries
                &&& after.eval_cache.hits == one_more(self.eval_cache.hits)
                &&& after.eval_cache.misses == self.eval_cache.misses
            },
            None => {
                &&& match self.nnue {
                    Some(net) => self.network_says(net, bb, r as int),
                    None => r == heuristic_of(self.weights, bb),
                }
                &&& after.eval_cache_hits == self.eval_cache_hits
                &&& after.eval_cache.entries@ == self.eval_cache.entries@.update(
                    EvalCache::index_of(bb.hash),
                    EvalCacheEntry { hash: bb.hash, score: r, generation: self.eval_cache.generation },
                )
                &&& after.eval_cache.hits == self.eval_cache.hits
                &&& after.eval_cache.misses == one_more(self.eval_cache.misses)
            },
        }
    }

    /// Evaluates a position, by the network if there is one, and caches the
    /// result. The last layer's result is held within the evaluation's bounds.
    #[verifier::spinoff_prover]
    pub(crate) fn evaluate(&mut self, bb: &BitBoard) -> (r: i32)
        requires
            old(self).wf(),
            bb.wf(),
        ensures
            final(self).wf(),
            -EVAL_LIMIT <= r <= EVAL_LIMIT,
            old(self).eval_cache.find(bb.hash) matches Some(s) ==> r == s,
            old(self).nnue is None ==> r == old(self).static_eval(*bb),
            old(self).nnue is None && old(self).honest() && keyed(*bb) && tells_eval(old(self).weights, *bb) ==> r
                == heuristic_of(old(self).weights, *bb),
            old(self).nnue is None && old(self).honest() && keyed(*bb) ==> final(self).honest(),
            final(self).eval_cache.find(bb.hash) == Some(r),
            old(self).nnue is None && bb@.winner() is None && old(self).weights.reach() <= MILD_EVAL && mild_cache(
                old(self).eval_cache,
            ) ==> -MILD_EVAL <= r <= MILD_EVAL && mild_cache(final(self).eval_cache),
            *final(self) == (BitBoardEngine {
                eval_cache: final(self).eval_cache,
                eval_cache_hits: final(self).eval_cache_hits,
                ..*old(self)
            }),
            old(self).evaluates(*final(self), *bb, r),
    {
        reveal(BitBoardEngine::tables_ok);
        reveal(BitBoardEngine::evaluates);
        let hash: u64 = bb.hash;
        proof {
            reveal(BitBoardEngine::honest);
            reveal(tells_eval);
            reveal(mild_cache);
        }
        if let Some(score) = self.eval_cache.probe(hash) {
            self.eval_cache_hits = self.eval_cache_hits.saturating_add(1);
            return score;
        }
        let score: i32 = match &self.nnue {
            Some(net) => {
                let (head, sums): (usize, Vec<i32>) = net.evaluate(bb, self.acc_stack.current(), &self.race);
                let cp: i32 = self.output.centipawns(head, &sums);
                assert(call_ensures(L::centipawns, (&self.output, head, &sums), cp));
                if cp > EVAL_LIMIT {
                    EVAL_LIMIT
                } else if cp < -EVAL_LIMIT {
                    -EVAL_LIMIT
                } else {
                    cp
                }
            },
            None => self.weights.evaluate(bb, &self.race),
        };
        let ghost before = self.eval_cache;
        self.eval_cache.store(hash, score);
        proof {
            if old(self).nnue is None && old(self).honest() && keyed(*bb) {
                assert forall|b: BitBoard| #[trigger] keyed(b) implies (self.eval_cache.find(b.hash) matches Some(s) ==> worth_of_hash(
                    self.weights,
                    b.hash,
                    s as int,
                )) by {
                    if b.hash == hash {
                        assert(worth_of_hash(self.weights, hash, score as int));
                    } else {
                        assert(self.eval_cache.find(b.hash) is None || self.eval_cache.find(b.hash) == before.find(b.hash));
                    }
                }
            }
        }
        score
    }

    /// Whether the search should end: it has been stopped before, or, looked at
    /// every 1024th time, the flag is raised or the time is up.
    #[verifier::spinoff_prover]
    pub(crate) fn should_stop(&mut self) -> (r: bool)
        requires
            old(self).wf(),
        ensures
            final(self).wf(),
            r == final(self).search_stopped,
            old(self).search_stopped ==> r,
            old(self).nodes_since_check < 1023 && !old(self).search_stopped ==> !r,
            final(self).nodes_since_check == if old(self).search_stopped {
                old(self).nodes_since_check as int
            } else {
                (old(self).nodes_since_check + 1) % 1024
            },
            *final(self) == (BitBoardEngine {
                search_stopped: final(self).search_stopped,
                nodes_since_check: final(self).nodes_since_check,
                ..*old(self)
            }),
    {
        reveal(BitBoardEngine::tables_ok);
        if self.search_stopped {
            return true;
        }
        self.nodes_since_check = self.nodes_since_check + 1;
        if self.nodes_since_check < 1024 {
            return false;
        }
        let raised: bool = is_raised(&self.stop_flag);
        let late: bool = match &self.deadline {
            Some(deadline) => deadline.passed(),
            None => false,
        };
        self.heed(raised, late)
    }

    /// Stops the search if the flag is raised or the time is up, and counts
    /// nodes anew.
    #[verifier::spinoff_prover]
    pub(crate) fn heed(&mut self, raised: bool, late: bool) -> (r: bool)
        ensures
            r == (raised || late || old(self).search_stopped),
            *final(self) == (BitBoardEngine { search_stopped: r, nodes_since_check: 0, ..*old(self) }),
    {
        self.nodes_since_check = 0;
        if raised || late {
            self.search_stopped = true;
        }
        self.search_stopped
    }
}

impl BitBoardEngine<NoOutput> {
    /// An engine without a network, with the tuned settings.
    #[verifier::spinoff_prover]
    pub fn new() -> (r: Self)
        ensures
            r.wf(),
            r.is_fresh(),
            r.weights == EvalWeights::spec_tuned(),
            r.knobs == SearchKnobs::spec_tuned(),
            r.nnue is None,
            r.tablebase is None,
            r.contempt == 0,
            r.no_progress_limit == 60,
            !r.search_stopped,
            r.sound(),
    {
        BitBoardEngine::with_output(NoOutput)
    }
}

impl Default for BitBoardEngine<NoOutput> {
    #[verifier::spinoff_prover]
    fn default() -> (r: Self)
        ensures
            r.wf(),
            r.is_fresh(),
            r.sound(),
    {
        BitBoardEngine::new()
    }
}

} // verus!
