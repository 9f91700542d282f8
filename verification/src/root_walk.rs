//! What searches from a root do, step by step: the windows they try, and the
//! iterations of deepening.
use vstd::prelude::*;
use crate::bitboard::BitBoard;
use crate::bitmove::BitMove;
use crate::deepening::proven_win;
use crate::engine::{BitBoardEngine, OutputLayer, SCORE_LIMIT};
use crate::engine_state::{halved, no_killers};
use crate::walk::visits;

verus! {

impl<L: OutputLayer> BitBoardEngine<L> {
    /// A search from a root is prepared: counters at zero, no killers, halved
    /// histories, an empty path and the root's accumulators.
    #[verifier::opaque]
    pub open spec fn begins_search(&self, after: Self, bb: BitBoard, first: bool) -> bool {
        &&& after == (BitBoardEngine {
            nodes_searched: 0,
            cutoffs: 0,
            tt_hits: 0,
            quiesce_nodes: 0,
            tt: after.tt,
            killer_moves: after.killer_moves,
            path_hashes: after.path_hashes,
            root_player: bb.current_player,
            history: after.history,
            cont_history: after.cont_history,
            correction_history: after.correction_history,
            acc_stack: after.acc_stack,
            ..*self
        })
        &&& after.tt.clusters == self.tt.clusters
        &&& after.tt.generation == if first {
            (self.tt.generation + 1) % 256
        } else {
            self.tt.generation as int
        }
        &&& no_killers(after.killer_moves@)
        &&& after.path_hashes@ == Seq::<u64>::empty()
        &&& forall|i: int| 0 <= i < 1296 ==> #[trigger] after.history@[i] == halved(self.history@[i])
        &&& forall|i: int| 0 <= i < 1296 ==> #[trigger] after.cont_history@[i] == halved(self.cont_history@[i])
        &&& forall|i: int|
            0 <= i < 16384 ==> #[trigger] after.correction_history@[i] == halved(self.correction_history@[i])
        &&& after.acc_stack.depth == 0
        &&& self.nnue matches Some(net) ==> net.holds(bb, after.acc_stack.top())
    }

    /// The clock is looked at between two iterations.
    pub open spec fn glances(&self, after: Self) -> bool {
        &&& after == (BitBoardEngine {
            search_stopped: after.search_stopped,
            nodes_since_check: after.nodes_since_check,
            ..*self
        })
        &&& self.search_stopped ==> after.search_stopped
        &&& self.nodes_since_check < 1023 && !self.search_stopped ==> !after.search_stopped
        &&& after.nodes_since_check == if self.search_stopped {
            self.nodes_since_check as int
        } else {
            (self.nodes_since_check + 1) % 1024
        }
    }
}

/// A window and how far its failed side was last moved.
pub struct Aim {
    pub alpha: i32,
    pub beta: i32,
    pub delta: i32,
}

impl Aim {
    /// Not below the lowest useful bound.
    pub open spec fn low(score: i32, delta: int) -> i32 {
        if score - delta < -SCORE_LIMIT - 1 {
            (-SCORE_LIMIT - 1) as i32
        } else {
            (score - delta) as i32
        }
    }

    /// Not above the highest useful bound.
    pub open spec fn high(score: i32, delta: int) -> i32 {
        if score + delta > SCORE_LIMIT + 1 {
            (SCORE_LIMIT + 1) as i32
        } else {
            (score + delta) as i32
        }
    }

    /// The first window: around the previous score if there is one, else the
    /// whole one.
    pub open spec fn first(prev: Option<i32>, asp_delta: i32) -> Self {
        let delta = if asp_delta > 1 {
            asp_delta
        } else {
            1
        };
        match prev {
            Some(s) => Aim { alpha: Self::low(s, delta as int), beta: Self::high(s, delta as int), delta },
            None => Aim { alpha: (i32::MIN + 1) as i32, beta: (i32::MAX - 1) as i32, delta },
        }
    }

    /// The score lies inside the window.
    pub open spec fn holds(self, score: i32) -> bool {
        self.alpha < score < self.beta
    }

    /// The window after a score outside: the failed side is moved twice as far as
    /// before, and without bound from a distance on.
    pub open spec fn widened(self, score: i32) -> Self {
        let delta = 2 * self.delta;
        if score <= self.alpha {
            Aim {
                alpha: if delta > 1000 {
                    (i32::MIN + 1) as i32
                } else {
                    Self::low(score, delta)
                },
                beta: self.beta,
                delta: delta as i32,
            }
        } else {
            Aim {
                alpha: self.alpha,
                beta: if delta > 1000 {
                    (i32::MAX - 1) as i32
                } else {
                    Self::high(score, delta)
                },
                delta: delta as i32,
            }
        }
    }
}

/// A search of the root with a window that did not hold the score.
pub struct Miss<L: OutputLayer> {
    pub from: BitBoardEngine<L>,
    pub aim: Aim,
    pub found: (i32, Option<BitMove>),
}

/// Windows that did not hold the score, from the first one on; then the engine is
/// `now` and the window is `aim`.
#[verifier::opaque]
pub open spec fn misses<L: OutputLayer>(
    begun: BitBoardEngine<L>,
    now: BitBoardEngine<L>,
    bb: BitBoard,
    depth: int,
    prev: Option<i32>,
    tried: Seq<Miss<L>>,
    aim: Aim,
) -> bool
    decreases tried.len(),
{
    if tried.len() == 0 {
        now == begun && aim == Aim::first(prev, begun.knobs.asp_delta)
    } else {
        let s = tried.last();
        &&& misses(begun, s.from, bb, depth, prev, tried.drop_last(), s.aim)
        &&& visits(s.from, now, bb, depth, s.aim.alpha, s.aim.beta, s.found)
        &&& !s.aim.holds(s.found.0)
        &&& aim == s.aim.widened(s.found.0)
    }
}

/// The parts of a search from a root: the engine when it was prepared, the
/// windows that did not hold the score, and the engine and the window of the last
/// try.
pub struct RootSearch<L: OutputLayer> {
    pub begun: BitBoardEngine<L>,
    pub tried: Seq<Miss<L>>,
    pub last: BitBoardEngine<L>,
    pub aim: Aim,
}

impl<L: OutputLayer> BitBoardEngine<L> {
    /// A search from a root with a window around the previous score: the answer
    /// is that of the first window that holds its score.
    #[verifier::opaque]
    pub open spec fn aspirates(
        &self,
        after: Self,
        bb: BitBoard,
        depth: int,
        prev: Option<i32>,
        r: (i32, Option<BitMove>),
    ) -> bool {
        exists|v: RootSearch<L>|
            #![trigger self.begins_search(v.begun, bb, prev is None)]
            {
                &&& self.begins_search(v.begun, bb, prev is None)
                &&& prev is None ==> v.tried.len() == 0
                &&& misses(v.begun, v.last, bb, depth, prev, v.tried, v.aim)
                &&& visits(v.last, after, bb, depth, v.aim.alpha, v.aim.beta, r)
                &&& v.aim.holds(r.0)
            }
    }
}

#[verifier::spinoff_prover]
pub(crate) proof fn lemma_misses_start<L: OutputLayer>(begun: BitBoardEngine<L>, bb: BitBoard, depth: int, prev: Option<i32>)
    ensures
        misses(begun, begun, bb, depth, prev, Seq::empty(), Aim::first(prev, begun.knobs.asp_delta)),
{
    reveal(misses);
}

/// One more window that did not hold the score.
#[verifier::spinoff_prover]
pub(crate) proof fn lemma_misses_more<L: OutputLayer>(
    begun: BitBoardEngine<L>,
    now: BitBoardEngine<L>,
    bb: BitBoard,
    depth: int,
    prev: Option<i32>,
    tried: Seq<Miss<L>>,
    s: Miss<L>,
)
    requires
        misses(begun, s.from, bb, depth, prev, tried, s.aim),
        visits(s.from, now, bb, depth, s.aim.alpha, s.aim.beta, s.found),
        !s.aim.holds(s.found.0),
    ensures
        misses(begun, now, bb, depth, prev, tried.push(s), s.aim.widened(s.found.0)),
{
    assert(tried.push(s).drop_last() =~= tried);
    reveal(misses);
}

/// An iteration of deepening: the engine before it, after the clock was looked
/// at, after the search and after another look; the result before it and the
/// search's answer.
pub struct Iteration<L: OutputLayer> {
    pub from: BitBoardEngine<L>,
    pub ready: BitBoardEngine<L>,
    pub searched: BitBoardEngine<L>,
    pub before: (i32, Option<BitMove>),
    pub found: (i32, Option<BitMove>),
}

/// Whole iterations one deeper each, with windows around the last score, up to a
/// proven win. The result is the last one's score, and its move if it has one.
#[verifier::opaque]
pub open spec fn deepens<L: OutputLayer>(
    first: BitBoardEngine<L>,
    iterations: Seq<Iteration<L>>,
    end: BitBoardEngine<L>,
    bb: BitBoard,
    r: (i32, Option<BitMove>),
) -> bool
    decreases iterations.len(),
{
    let n = iterations.len() as int;
    if n == 0 {
        end == first && r.0 == 0 && r.1 is None
    } else {
        let s = iterations.last();
        &&& deepens(first, iterations.drop_last(), s.from, bb, s.before)
        &&& n > 1 ==> !proven_win(bb.current_player, s.before.0 as int)
        &&& s.from.glances(s.ready)
        &&& !s.ready.search_stopped
        &&& s.ready.aspirates(
            s.searched,
            bb,
            n,
            if n == 1 {
                None
            } else {
                Some(s.before.0)
            },
            s.found,
        )
        &&& s.searched.glances(end)
        &&& !end.search_stopped
        &&& r.0 == s.found.0
        &&& r.1 == if s.found.1 is Some {
            s.found.1
        } else {
            s.before.1
        }
    }
}

/// Two counts together, held at the end of their range.
pub open spec fn held_sum(x: int, y: int) -> int {
    if x + y > u64::MAX {
        u64::MAX as int
    } else {
        x + y
    }
}

/// The counters of all iterations together: nodes, quiescence nodes, cut-offs and
/// table hits.
pub open spec fn counted<L: OutputLayer>(iterations: Seq<Iteration<L>>) -> (int, int, int, int)
    decreases iterations.len(),
{
    if iterations.len() == 0 {
        (0, 0, 0, 0)
    } else {
        let (n, q, c, t) = counted(iterations.drop_last());
        let e = iterations.last().searched;
        (
            held_sum(n, e.nodes_searched as int),
            held_sum(q, e.quiesce_nodes as int),
            held_sum(c, e.cutoffs as int),
            held_sum(t, e.tt_hits as int),
        )
    }
}

#[verifier::spinoff_prover]
pub(crate) proof fn lemma_deepens_start<L: OutputLayer>(first: BitBoardEngine<L>, bb: BitBoard)
    ensures
        deepens(first, Seq::empty(), first, bb, (0, None)),
{
    reveal(deepens);
}

/// One more iteration.
#[verifier::spinoff_prover]
pub(crate) proof fn lemma_deepens_more<L: OutputLayer>(
    first: BitBoardEngine<L>,
    iterations: Seq<Iteration<L>>,
    end: BitBoardEngine<L>,
    bb: BitBoard,
    s: Iteration<L>,
)
    requires
        deepens(first, iterations, s.from, bb, s.before),
        iterations.len() > 0 ==> !proven_win(bb.current_player, s.before.0 as int),
        s.from.glances(s.ready),
        !s.ready.search_stopped,
        s.ready.aspirates(
            s.searched,
            bb,
            (iterations.len() + 1) as int,
            if iterations.len() == 0 {
                None
            } else {
                Some(s.before.0)
            },
            s.found,
        ),
        s.searched.glances(end),
        !end.search_stopped,
    ensures
        deepens(
            first,
            iterations.push(s),
            end,
            bb,
            (
                s.found.0,
                if s.found.1 is Some {
                    s.found.1
                } else {
                    s.before.1
                },
            ),
        ),
        counted(iterations.push(s)).0 == held_sum(counted(iterations).0, s.searched.nodes_searched as int),
        counted(iterations.push(s)).1 == held_sum(counted(iterations).1, s.searched.quiesce_nodes as int),
        counted(iterations.push(s)).2 == held_sum(counted(iterations).2, s.searched.cutoffs as int),
        counted(iterations.push(s)).3 == held_sum(counted(iterations).3, s.searched.tt_hits as int),
{
    assert(iterations.push(s).drop_last() =~= iterations);
    reveal(deepens);
}

/// A whole search of a root: the engine before and after it, and its answer.
pub struct Run<L: OutputLayer> {
    pub from: BitBoardEngine<L>,
    pub to: BitBoardEngine<L>,
    pub found: (i32, Option<BitMove>),
}

/// Searches of a root one deeper each, with the whole window, each beginning
/// where the one before it ended, none of them stopped.
#[verifier::opaque]
pub open spec fn reruns<L: OutputLayer>(
    first: BitBoardEngine<L>,
    runs: Seq<Run<L>>,
    end: BitBoardEngine<L>,
    bb: BitBoard,
) -> bool
    decreases runs.len(),
{
    if runs.len() == 0 {
        end == first
    } else {
        let s = runs.last();
        &&& reruns(first, runs.drop_last(), s.from, bb)
        &&& s.from.aspirates(s.to, bb, runs.len() as int, None, s.found)
        &&& !s.to.search_stopped
        &&& end == s.to
    }
}

#[verifier::spinoff_prover]
pub(crate) proof fn lemma_reruns_start<L: OutputLayer>(first: BitBoardEngine<L>, bb: BitBoard)
    ensures
        reruns(first, Seq::empty(), first, bb),
{
    reveal(reruns);
}

/// One more search.
#[verifier::spinoff_prover]
pub(crate) proof fn lemma_reruns_more<L: OutputLayer>(
    first: BitBoardEngine<L>,
    runs: Seq<Run<L>>,
    bb: BitBoard,
    s: Run<L>,
)
    requires
        reruns(first, runs, s.from, bb),
        s.from.aspirates(s.to, bb, (runs.len() + 1) as int, None, s.found),
        !s.to.search_stopped,
    ensures
        reruns(first, runs.push(s), s.to, bb),
{
    assert(runs.push(s).drop_last() =~= runs);
    reveal(reruns);
}

} // verus!
