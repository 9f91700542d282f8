//! What a search with all its pruning does, step by step: which moves of a node
//! are skipped, which are tried, how deep and with which window, and what is
//! made of their scores.
use vstd::prelude::*;
use crate::bitboard::BitBoard;
use crate::bitmove::BitMove;
use crate::board::Player;
use crate::engine::{one_more, BitBoardEngine, OutputLayer};
use crate::movegen::lists_legal;
use crate::node::{from_tt, is_legal, to_tt, win_score_of};
use crate::ordering::{cont_with, history_with, killers_with, trunc_div};
use crate::quiet_walk::settles;
use crate::search::{abs_below, corrected_error, few_left, limited, NodeFacts};
use crate::tt::{stored_in, TTEntry, TTFlag};

verus! {

/// A node while its moves are searched: how many were tried, the best score and
/// move, the window, and whether a move has cut off.
pub struct Progress {
    pub searched: int,
    pub best: i32,
    pub best_move: Option<BitMove>,
    pub alpha: i32,
    pub beta: i32,
    pub cut: bool,
}

impl Progress {
    /// Before the first move.
    pub open spec fn start(maximizing: bool, alpha: i32, beta: i32) -> Self {
        Progress {
            searched: 0,
            best: if maximizing {
                (i32::MIN + 1) as i32
            } else {
                (i32::MAX - 1) as i32
            },
            best_move: None,
            alpha,
            beta,
            cut: false,
        }
    }

    /// After a move that was tried. A better score takes the place of the best
    /// one and narrows the window; an empty window cuts off.
    pub open spec fn took(self, maximizing: bool, m: BitMove, score: i32) -> Self {
        let better = if maximizing {
            score > self.best
        } else {
            score < self.best
        };
        let alpha = if maximizing && score > self.alpha {
            score
        } else {
            self.alpha
        };
        let beta = if !maximizing && score < self.beta {
            score
        } else {
            self.beta
        };
        Progress {
            searched: self.searched + 1,
            best: if better {
                score
            } else {
                self.best
            },
            best_move: if better {
                Some(m)
            } else {
                self.best_move
            },
            alpha,
            beta,
            cut: beta <= alpha,
        }
    }
}

/// A move of a node: the engine before it and after it was tried, the node
/// before it, and its score.
pub struct Try<L: OutputLayer> {
    pub from: BitBoardEngine<L>,
    pub tried: BitBoardEngine<L>,
    pub before: Progress,
    pub score: i32,
}

/// A node whose moves are searched: the legal moves, the order they are searched
/// in, descending by their scores, their places in the list, the tries, and the engine and the node after them and after learning.
pub struct Expansion<L: OutputLayer> {
    pub listed: Seq<BitMove>,
    pub sorted: Seq<BitMove>,
    pub places: Seq<int>,
    pub steps: Seq<Try<L>>,
    pub end: Progress,
    pub walked: BitBoardEngine<L>,
    pub back: BitBoardEngine<L>,
    pub learned: BitBoardEngine<L>,
}

/// A node from its entry on: the engine after the clock was looked at, after the
/// table was, after the evaluation and before the moves; the facts, and the score
/// that pruning gave, if any.
pub struct Look<L: OutputLayer> {
    pub awake: BitBoardEngine<L>,
    pub probed: BitBoardEngine<L>,
    pub judged: BitBoardEngine<L>,
    pub ready: BitBoardEngine<L>,
    pub n: NodeFacts,
    pub pruned: Option<i32>,
}

impl<L: OutputLayer> BitBoardEngine<L> {
    /// A node is counted, and at every 1024th the flag and the clock are looked
    /// at.
    pub open spec fn wakes(&self, after: Self) -> bool {
        &&& after == (BitBoardEngine {
            nodes_searched: after.nodes_searched,
            search_stopped: after.search_stopped,
            nodes_since_check: after.nodes_since_check,
            ..*self
        })
        &&& after.nodes_searched == one_more(self.nodes_searched)
        &&& self.search_stopped ==> after.search_stopped
        &&& self.nodes_since_check < 1023 && !self.search_stopped ==> !after.search_stopped
        &&& after.nodes_since_check == if self.search_stopped {
            self.nodes_since_check as int
        } else {
            (self.nodes_since_check + 1) % 1024
        }
    }

    /// The position's hash is put on the path.
    pub open spec fn steps_onto(&self, after: Self, hash: u64) -> bool {
        &&& after == (BitBoardEngine { path_hashes: after.path_hashes, ..*self })
        &&& after.path_hashes@ == self.path_hashes@.push(hash)
    }

    /// The last hash is taken off the path.
    pub open spec fn steps_back(&self, after: Self) -> bool {
        &&& after == (BitBoardEngine { path_hashes: after.path_hashes, ..*self })
        &&& after.path_hashes@ == self.path_hashes@.drop_last()
    }

    /// A move is played: the accumulators are brought to the child, and the move
    /// is the previous one.
    pub open spec fn plays_into(&self, after: Self, bb: BitBoard, m: BitMove) -> bool {
        &&& self.enters_child(BitBoardEngine { prev_move: self.prev_move, ..after }, bb, bb.played(m))
        &&& after.prev_move == Some(m)
    }

    /// The table is looked at; only its statistics change.
    pub open spec fn probes(&self, after: Self, hash: u64) -> bool {
        &&& after == (BitBoardEngine { tt: after.tt, tt_hits: after.tt_hits, ..*self })
        &&& after.tt.clusters == self.tt.clusters
        &&& after.tt.generation == self.tt.generation
        &&& if self.tt.find(hash) is Some {
            &&& after.tt_hits == one_more(self.tt_hits)
            &&& after.tt.hits == one_more(self.tt.hits)
            &&& after.tt.misses == self.tt.misses
        } else {
            &&& after.tt_hits == self.tt_hits
            &&& after.tt.hits == self.tt.hits
            &&& after.tt.misses == one_more(self.tt.misses)
        }
    }

    /// The facts of a node come from its evaluation.
    pub open spec fn judges(&self, after: Self, bb: BitBoard, depth: int, n: NodeFacts) -> bool {
        &&& self.evaluates(after, bb, n.static_eval)
        &&& n.ok()
        &&& n.depth == depth
        &&& n.maximizing == (bb.current_player == Player::White)
        &&& n.ply == self.ply_of()
        &&& n.endgame == few_left(bb@)
        &&& n.mid_turn == bb.awaiting_barrel
        &&& n.corrected == n.static_eval + trunc_div(self.correction_history@[bb.hash as int % 16384] as int, 256)
    }

    /// What is learned from a move that cut off: pail placements teach nothing.
    pub open spec fn learns_cutoff(&self, after: Self, m: BitMove, prev: Option<BitMove>, depth: int) -> bool {
        &&& after == (BitBoardEngine {
            killer_moves: after.killer_moves,
            history: after.history,
            cont_history: after.cont_history,
            cutoffs: after.cutoffs,
            ..*self
        })
        &&& after.cutoffs == one_more(self.cutoffs)
        &&& if m.pail_only() {
            &&& after.killer_moves == self.killer_moves
            &&& after.history == self.history
            &&& after.cont_history == self.cont_history
        } else {
            &&& after.killer_moves@ == killers_with(self.killer_moves@, m, depth)
            &&& after.history@ == history_with(self.history@, m, depth)
            &&& match prev {
                Some(pm) => after.cont_history@ == cont_with(self.cont_history@, pm, m, depth),
                None => after.cont_history == self.cont_history,
            }
        }
    }

    /// What is learned of the evaluation's error: nothing from shallow nodes and
    /// wins.
    pub open spec fn learns_error(&self, after: Self, hash: u64, best: i32, n: NodeFacts) -> bool {
        if n.depth >= 3 && abs_below(best, 90_000) && abs_below(n.static_eval, 90_000) {
            &&& after == (BitBoardEngine { correction_history: after.correction_history, ..*self })
            &&& after.correction_history@ == self.correction_history@.update(
                hash as int % 16384,
                corrected_error(self.correction_history@[hash as int % 16384], best, n.static_eval, n.depth) as i32,
            )
        } else {
            after == *self
        }
    }
}

/// The kind of score a node has: nothing reached the first lower bound, or the
/// upper bound was reached, or it is exact.
pub open spec fn flag_of(best: i32, first_alpha: i32, last_beta: i32) -> TTFlag {
    if best <= first_alpha {
        TTFlag::UpperBound
    } else if best >= last_beta {
        TTFlag::LowerBound
    } else {
        TTFlag::Exact
    }
}

/// The window of a node after the table was looked at: an entry that is deep
/// enough is the answer, or narrows the window by its bound. Whether it is the
/// answer.
pub open spec fn narrowed_by(e: Option<TTEntry>, depth: int, ply: int, alpha: i32, beta: i32) -> (i32, i32, bool) {
    match e {
        Some(x) => {
            let s = from_tt(x.score as int, ply) as i32;
            if x.depth < depth {
                (alpha, beta, false)
            } else {
                let lo = if x.flag == TTFlag::LowerBound && s > alpha {
                    s
                } else {
                    alpha
                };
                let hi = if x.flag == TTFlag::UpperBound && s < beta {
                    s
                } else {
                    beta
                };
                (lo, hi, x.flag == TTFlag::Exact || lo >= hi)
            }
        },
        None => (alpha, beta, false),
    }
}

/// A node that the table knows nothing of is searched one less deep from a depth
/// on.
pub open spec fn depth_kept(e: Option<TTEntry>, depth: int, iir_depth: i32) -> int {
    if e is None && depth > 0 && depth >= iir_depth {
        depth - 1
    } else {
        depth
    }
}

/// A search of a position: draws by the rules and table values are answered at
/// once, everything else is looked at with its hash on the path.
#[verifier::opaque]
pub open spec fn visits<L: OutputLayer>(
    a: BitBoardEngine<L>,
    b: BitBoardEngine<L>,
    bb: BitBoard,
    depth: int,
    alpha: i32,
    beta: i32,
    r: (i32, Option<BitMove>),
) -> bool
    decreases depth, 5int, 0int, 0int,
{
    if depth < 0 {
        false
    } else if a.is_draw_node(bb) {
        r.0 == a.draw_value() && r.1 is None && b == a
    } else if a.path_hashes@.len() > 0 && a.table_value(bb) is Some {
        &&& r.0 == a.table_score(a.table_value(bb)->0)
        &&& r.1 is None
        &&& b == (BitBoardEngine { tb_hits: one_more(a.tb_hits) as u64, ..a })
    } else {
        exists|x: BitBoardEngine<L>, y: BitBoardEngine<L>|
            #![trigger a.steps_onto(x, bb.hash), y.steps_back(b)]
            a.steps_onto(x, bb.hash) && looks(x, y, bb, depth, alpha, beta, r) && y.steps_back(b)
    }
}

/// A search below a node that is on the path.
#[verifier::opaque]
pub open spec fn looks<L: OutputLayer>(
    a: BitBoardEngine<L>,
    b: BitBoardEngine<L>,
    bb: BitBoard,
    depth: int,
    alpha: i32,
    beta: i32,
    r: (i32, Option<BitMove>),
) -> bool
    decreases depth, 4int, 0int, 0int,
{
    depth >= 0 && exists|v: Look<L>|
        #![trigger a.wakes(v.awake)]
        a.wakes(v.awake) && looked(a, b, v, bb, depth, alpha, beta, r)
}

/// The parts of a search below a node. A stopped search answers nothing; then
/// come the table's answer, a finished game, quiescence where no depth is left,
/// what pruning answers, and the search of the moves.
pub open spec fn looked<L: OutputLayer>(
    a: BitBoardEngine<L>,
    b: BitBoardEngine<L>,
    v: Look<L>,
    bb: BitBoard,
    depth: int,
    alpha: i32,
    beta: i32,
    r: (i32, Option<BitMove>),
) -> bool
    decreases depth, 3int, 0int, 0int,
{
    let e = a.tt.find(bb.hash);
    let (lo, hi, known) = narrowed_by(e, depth, a.ply_of(), alpha, beta);
    let d = depth_kept(e, depth, a.knobs.iir_depth);
    &&& depth >= 0
    &&& a.wakes(v.awake)
    &&& if v.awake.search_stopped {
        r.0 == 0 && r.1 is None && b == v.awake
    } else {
        &&& v.awake.probes(v.probed, bb.hash)
        &&& if known {
            r.0 == from_tt(e->0.score as int, a.ply_of()) && r.1 == e->0.best_move && b == v.probed
        } else if bb@.winner() is Some {
            r.0 == win_score_of(bb@.winner()->0, a.ply_of()) && r.1 is None && b == v.probed
        } else if d == 0 {
            settles(v.probed, b, bb, lo, hi, 0, r.0) && r.1 is None
        } else {
            &&& v.probed.judges(v.judged, bb, d, v.n)
            &&& match v.pruned {
                Some(s) => prunes(v.judged, b, bb, v.n, lo, hi, Some(s)) && r.0 == s && r.1 is None,
                None => {
                    &&& prunes(v.judged, v.ready, bb, v.n, lo, hi, None)
                    &&& expands(
                        v.ready,
                        b,
                        bb,
                        v.n,
                        alpha,
                        lo,
                        hi,
                        match e {
                            Some(x) => x.best_move,
                            None => None,
                        },
                        r,
                    )
                },
            }
        }
    }
}

/// A razored node is settled first.
pub open spec fn razored<L: OutputLayer>(
    a: BitBoardEngine<L>,
    b: BitBoardEngine<L>,
    bb: BitBoard,
    n: NodeFacts,
    alpha: i32,
    beta: i32,
    q: i32,
) -> bool {
    if a.razors(n, alpha, beta) {
        settles(a, b, bb, alpha, beta, 0, q)
    } else {
        b == a
    }
}

/// What is answered without searching the moves in full, if anything: a hopeless
/// quiescence of a razored node, reverse futility, or a null move that holds the
/// bound.
#[verifier::opaque]
pub open spec fn prunes<L: OutputLayer>(
    a: BitBoardEngine<L>,
    b: BitBoardEngine<L>,
    bb: BitBoard,
    n: NodeFacts,
    alpha: i32,
    beta: i32,
    s: Option<i32>,
) -> bool
    decreases n.depth as int, 2int, 0int, 0int,
{
    exists|mid: BitBoardEngine<L>, q: i32|
        #![trigger razored(a, mid, bb, n, alpha, beta, q)]
        razored(a, mid, bb, n, alpha, beta, q) && if a.razors(n, alpha, beta) && (if n.maximizing {
            q < alpha
        } else {
            q > beta
        }) {
            s == Some(q) && b == mid
        } else if mid.reverse_futility_score(n, alpha, beta) is Some {
            s is Some && s->0 == mid.reverse_futility_score(n, alpha, beta)->0 && b == mid
        } else if mid.null_move_fits(n, bb.near_goal(), alpha, beta) {
            passes(mid, b, bb, n, alpha, beta, s)
        } else {
            s is None && b == mid
        }
}

/// A null move is tried with a null window at the bound to be held.
#[verifier::opaque]
pub open spec fn passes<L: OutputLayer>(
    a: BitBoardEngine<L>,
    b: BitBoardEngine<L>,
    bb: BitBoard,
    n: NodeFacts,
    alpha: i32,
    beta: i32,
    s: Option<i32>,
) -> bool
    decreases n.depth as int, 1int, 0int, 0int,
{
    let d = a.null_depth_of(n, alpha, beta);
    let (lo, hi) = null_window(!n.maximizing, alpha, beta);
    exists|found: (i32, Option<BitMove>)|
        #![trigger score_of(found)]
        0 <= d < n.depth && visits(a, b, bb.null_played(), d, lo, hi, found) && s == if n.maximizing {
            if score_of(found) >= beta {
                Some(beta)
            } else {
                None
            }
        } else {
            if score_of(found) <= alpha {
                Some(alpha)
            } else {
                None
            }
        }
}

/// The moves of a node are searched, the result is learned from and stored. A
/// side without a move is judged by its evaluation.
#[verifier::opaque]
pub open spec fn expands<L: OutputLayer>(
    a: BitBoardEngine<L>,
    b: BitBoardEngine<L>,
    bb: BitBoard,
    n: NodeFacts,
    first_alpha: i32,
    alpha: i32,
    beta: i32,
    tt_move: Option<BitMove>,
    r: (i32, Option<BitMove>),
) -> bool
    decreases n.depth as int, 2int, 0int, 0int,
{
    exists|x: Expansion<L>|
        #![trigger lists_legal(x.listed, bb@)]
        lists_legal(x.listed, bb@) && expanded(a, b, x, bb, n, first_alpha, alpha, beta, tt_move, r)
}

pub open spec fn expanded<L: OutputLayer>(
    a: BitBoardEngine<L>,
    b: BitBoardEngine<L>,
    x: Expansion<L>,
    bb: BitBoard,
    n: NodeFacts,
    first_alpha: i32,
    alpha: i32,
    beta: i32,
    tt_move: Option<BitMove>,
    r: (i32, Option<BitMove>),
) -> bool
    decreases n.depth as int, 1int, 0int, 0int,
{
    &&& lists_legal(x.listed, bb@)
    &&& if x.listed.len() == 0 {
        r.0 == n.static_eval && r.1 is None && b == a
    } else {
        &&& x.sorted.to_multiset() == x.listed.to_multiset()
        &&& a.sorts(x.listed, x.sorted, bb.current_player, n.depth as int, tt_move, x.places)
        &&& walks(a, x.walked, bb, n, x.sorted, a.futile(n, alpha, beta), alpha, beta, x.steps, x.end)
        &&& x.end.cut || x.steps.len() == x.sorted.len()
        &&& r.0 == x.end.best
        &&& r.1 == x.end.best_move
        &&& x.back == (BitBoardEngine { prev_move: a.prev_move, ..x.walked })
        &&& x.back.learns_error(x.learned, bb.hash, r.0, n)
        &&& b == (BitBoardEngine { tt: b.tt, ..x.learned })
        &&& r.1 is Some
        &&& stored_in(
            x.learned.tt,
            b.tt,
            TTEntry {
                hash: bb.hash,
                depth: n.depth,
                score: limited(to_tt(r.0 as int, n.ply as int)) as i32,
                flag: flag_of(r.0, first_alpha, x.end.beta),
                generation: x.learned.tt.generation,
                best_move: r.1,
            },
        )
    }
}

/// The first moves of a node in their order, up to a cut-off: each is skipped by
/// the pruning rules, or tried with what the ones before it left.
#[verifier::opaque]
pub open spec fn walks<L: OutputLayer>(
    a: BitBoardEngine<L>,
    now: BitBoardEngine<L>,
    bb: BitBoard,
    n: NodeFacts,
    moves: Seq<BitMove>,
    futile: bool,
    alpha: i32,
    beta: i32,
    steps: Seq<Try<L>>,
    end: Progress,
) -> bool
    decreases n.depth as int, 0int, steps.len() + 1, 0int,
{
    if steps.len() == 0 {
        now == a && end == Progress::start(n.maximizing, alpha, beta)
    } else {
        let s = steps.last();
        let m = moves[steps.len() - 1];
        let p = s.before;
        &&& steps.len() <= moves.len()
        &&& !p.cut
        &&& walks(a, s.from, bb, n, moves, futile, alpha, beta, steps.drop_last(), p)
        &&& if s.from.skips(n, m, p.searched, p.best, futile, a.lmp_threshold_of(n), bb.current_player) {
            now == s.from && end == p
        } else {
            &&& tries(s.from, s.tried, bb, n, m, p.searched, p.alpha, p.beta, s.score)
            &&& end == p.took(n.maximizing, m, s.score)
            &&& if end.cut {
                s.tried.learns_cutoff(now, m, a.prev_move, n.depth as int)
            } else {
                now == s.tried
            }
        }
    }
}

/// A move is played, the position behind it is searched, and the move is taken
/// back.
#[verifier::opaque]
pub open spec fn tries<L: OutputLayer>(
    a: BitBoardEngine<L>,
    b: BitBoardEngine<L>,
    bb: BitBoard,
    n: NodeFacts,
    m: BitMove,
    searched: int,
    alpha: i32,
    beta: i32,
    score: i32,
) -> bool
    decreases n.depth as int, 0int, 0int, 1int,
{
    &&& is_legal(bb, m)
    &&& a.keeps(b)
    &&& exists|x: BitBoardEngine<L>, y: BitBoardEngine<L>|
        #![trigger a.plays_into(x, bb, m), y.leaves_child(b)]
        {
            &&& a.plays_into(x, bb, m)
            &&& replies(x, y, bb.played(m), n, m, searched, alpha, beta, bb.current_player, score)
            &&& y.leaves_child(b)
        }
}

/// A child is searched: the first with the whole window, later ones reduced and
/// with a null window, again in full if that looks promising.
#[verifier::opaque]
pub open spec fn replies<L: OutputLayer>(
    a: BitBoardEngine<L>,
    b: BitBoardEngine<L>,
    child: BitBoard,
    n: NodeFacts,
    m: BitMove,
    searched: int,
    alpha: i32,
    beta: i32,
    p: Player,
    score: i32,
) -> bool
    decreases n.depth as int, 0int, 0int, 0int,
{
    &&& n.depth >= 1
    &&& if searched == 0 {
        exists|found: (i32, Option<BitMove>)|
            #![trigger score_of(found)]
            visits(a, b, child, n.depth - 1, alpha, beta, found) && score == score_of(found)
    } else {
        let reduction = a.reduction_of(n, m, searched, p);
        let d = reduced_depth(n, reduction);
        let (lo, hi) = null_window(n.maximizing, alpha, beta);
        0 <= d < n.depth && exists|g: Glance<L>|
            #![trigger g.score()]
            visits(a, g.mid, child, d, lo, hi, g.found) && if looks_again(n, reduction, alpha, beta, g.score()) {
                exists|found: (i32, Option<BitMove>)|
                    #![trigger score_of(found)]
                    visits(g.mid, b, child, n.depth - 1, alpha, beta, found) && score == score_of(found)
            } else {
                b == g.mid && score == g.score()
            }
    }
}

/// The first, reduced search of a late move: the engine after it and what it
/// found.
pub struct Glance<L: OutputLayer> {
    pub mid: BitBoardEngine<L>,
    pub found: (i32, Option<BitMove>),
}

impl<L: OutputLayer> Glance<L> {
    pub open spec fn score(self) -> i32 {
        score_of(self.found)
    }
}

/// The score of a result.
pub open spec fn score_of(r: (i32, Option<BitMove>)) -> i32 {
    r.0
}

/// The window that only tells whether a score passes the bound to be beaten.
pub open spec fn null_window(maximizing: bool, alpha: i32, beta: i32) -> (i32, i32) {
    if maximizing {
        (alpha, (alpha + 1) as i32)
    } else {
        ((beta - 1) as i32, beta)
    }
}

/// How deep a late move is first searched.
pub open spec fn reduced_depth(n: NodeFacts, reduction: int) -> int {
    if reduction < n.depth - 1 {
        n.depth - 1 - reduction
    } else {
        0
    }
}

/// A late move whose null window search looks promising is searched in full.
pub open spec fn looks_again(n: NodeFacts, reduction: int, alpha: i32, beta: i32, glance: i32) -> bool {
    if n.maximizing {
        glance > alpha && (glance < beta || reduction > 0)
    } else {
        glance < beta && (glance > alpha || reduction > 0)
    }
}

/// A search of a position from its search below the node.
#[verifier::spinoff_prover]
pub(crate) proof fn lemma_visits<L: OutputLayer>(
    a: BitBoardEngine<L>,
    x: BitBoardEngine<L>,
    y: BitBoardEngine<L>,
    b: BitBoardEngine<L>,
    bb: BitBoard,
    depth: int,
    alpha: i32,
    beta: i32,
    r: (i32, Option<BitMove>),
)
    requires
        depth >= 0,
        !a.is_draw_node(bb),
        a.path_hashes@.len() == 0 || a.table_value(bb) is None,
        a.steps_onto(x, bb.hash),
        looks(x, y, bb, depth, alpha, beta, r),
        y.steps_back(b),
    ensures
        visits(a, b, bb, depth, alpha, beta, r),
{
    reveal(visits);
}

/// A position that is answered at once.
#[verifier::spinoff_prover]
pub(crate) proof fn lemma_visits_at_once<L: OutputLayer>(
    a: BitBoardEngine<L>,
    b: BitBoardEngine<L>,
    bb: BitBoard,
    depth: int,
    alpha: i32,
    beta: i32,
    score: i32,
)
    requires
        depth >= 0,
        if a.is_draw_node(bb) {
            score == a.draw_value() && b == a
        } else {
            a.path_hashes@.len() > 0 && a.table_value(bb) is Some && score == a.table_score(a.table_value(bb)->0) && b
                == (BitBoardEngine { tb_hits: one_more(a.tb_hits) as u64, ..a })
        },
    ensures
        visits(a, b, bb, depth, alpha, beta, (score, None)),
{
    reveal(visits);
}

/// A search below a node from its parts.
#[verifier::spinoff_prover]
pub(crate) proof fn lemma_looks<L: OutputLayer>(
    a: BitBoardEngine<L>,
    b: BitBoardEngine<L>,
    v: Look<L>,
    bb: BitBoard,
    depth: int,
    alpha: i32,
    beta: i32,
    r: (i32, Option<BitMove>),
)
    requires
        looked(a, b, v, bb, depth, alpha, beta, r),
    ensures
        looks(a, b, bb, depth, alpha, beta, r),
{
    reveal(looks);
    assert(a.wakes(v.awake));
}

/// A null move from its search.
#[verifier::spinoff_prover]
pub(crate) proof fn lemma_passes<L: OutputLayer>(
    a: BitBoardEngine<L>,
    b: BitBoardEngine<L>,
    bb: BitBoard,
    n: NodeFacts,
    alpha: i32,
    beta: i32,
    found: (i32, Option<BitMove>),
)
    requires
        0 <= a.null_depth_of(n, alpha, beta) < n.depth,
        ({
            let (lo, hi) = null_window(!n.maximizing, alpha, beta);
            visits(a, b, bb.null_played(), a.null_depth_of(n, alpha, beta), lo, hi, found)
        }),
    ensures
        passes(
            a,
            b,
            bb,
            n,
            alpha,
            beta,
            if n.maximizing {
                if found.0 >= beta {
                    Some(beta)
                } else {
                    None
                }
            } else {
                if found.0 <= alpha {
                    Some(alpha)
                } else {
                    None
                }
            },
        ),
{
    reveal(passes);
    assert(score_of(found) == found.0);
}

/// Pruning from its parts.
#[verifier::spinoff_prover]
pub(crate) proof fn lemma_prunes<L: OutputLayer>(
    a: BitBoardEngine<L>,
    mid: BitBoardEngine<L>,
    b: BitBoardEngine<L>,
    bb: BitBoard,
    n: NodeFacts,
    alpha: i32,
    beta: i32,
    q: i32,
    s: Option<i32>,
)
    requires
        razored(a, mid, bb, n, alpha, beta, q),
        if a.razors(n, alpha, beta) && (if n.maximizing {
            q < alpha
        } else {
            q > beta
        }) {
            s == Some(q) && b == mid
        } else if mid.reverse_futility_score(n, alpha, beta) is Some {
            s is Some && s->0 == mid.reverse_futility_score(n, alpha, beta)->0 && b == mid
        } else if mid.null_move_fits(n, bb.near_goal(), alpha, beta) {
            passes(mid, b, bb, n, alpha, beta, s)
        } else {
            s is None && b == mid
        },
    ensures
        prunes(a, b, bb, n, alpha, beta, s),
{
    reveal(prunes);
}

/// A node's moves from their parts.
#[verifier::spinoff_prover]
pub(crate) proof fn lemma_expands<L: OutputLayer>(
    a: BitBoardEngine<L>,
    b: BitBoardEngine<L>,
    x: Expansion<L>,
    bb: BitBoard,
    n: NodeFacts,
    first_alpha: i32,
    alpha: i32,
    beta: i32,
    tt_move: Option<BitMove>,
    r: (i32, Option<BitMove>),
)
    requires
        expanded(a, b, x, bb, n, first_alpha, alpha, beta, tt_move, r),
    ensures
        expands(a, b, bb, n, first_alpha, alpha, beta, tt_move, r),
{
    reveal(expands);
    assert(lists_legal(x.listed, bb@));
}

#[verifier::spinoff_prover]
pub(crate) proof fn lemma_walks_start<L: OutputLayer>(
    a: BitBoardEngine<L>,
    bb: BitBoard,
    n: NodeFacts,
    moves: Seq<BitMove>,
    futile: bool,
    alpha: i32,
    beta: i32,
)
    ensures
        walks(a, a, bb, n, moves, futile, alpha, beta, Seq::empty(), Progress::start(n.maximizing, alpha, beta)),
{
    reveal(walks);
}

/// One more move, which is skipped.
#[verifier::spinoff_prover]
pub(crate) proof fn lemma_walks_skip<L: OutputLayer>(
    a: BitBoardEngine<L>,
    now: BitBoardEngine<L>,
    bb: BitBoard,
    n: NodeFacts,
    moves: Seq<BitMove>,
    futile: bool,
    alpha: i32,
    beta: i32,
    steps: Seq<Try<L>>,
    p: Progress,
) -> (s: Try<L>)
    requires
        walks(a, now, bb, n, moves, futile, alpha, beta, steps, p),
        steps.len() < moves.len(),
        !p.cut,
        now.skips(
            n,
            moves[steps.len() as int],
            p.searched,
            p.best,
            futile,
            a.lmp_threshold_of(n),
            bb.current_player,
        ),
    ensures
        walks(a, now, bb, n, moves, futile, alpha, beta, steps.push(s), p),
{
    let s = Try { from: now, tried: now, before: p, score: 0 };
    assert(steps.push(s).drop_last() =~= steps);
    reveal(walks);
    s
}

/// One more move, which is tried.
#[verifier::spinoff_prover]
pub(crate) proof fn lemma_walks_try<L: OutputLayer>(
    a: BitBoardEngine<L>,
    now: BitBoardEngine<L>,
    bb: BitBoard,
    n: NodeFacts,
    moves: Seq<BitMove>,
    futile: bool,
    alpha: i32,
    beta: i32,
    steps: Seq<Try<L>>,
    s: Try<L>,
)
    requires
        walks(a, s.from, bb, n, moves, futile, alpha, beta, steps, s.before),
        steps.len() < moves.len(),
        !s.before.cut,
        ({
            let m = moves[steps.len() as int];
            let p = s.before;
            let end = p.took(n.maximizing, m, s.score);
            &&& !s.from.skips(n, m, p.searched, p.best, futile, a.lmp_threshold_of(n), bb.current_player)
            &&& tries(s.from, s.tried, bb, n, m, p.searched, p.alpha, p.beta, s.score)
            &&& if end.cut {
                s.tried.learns_cutoff(now, m, a.prev_move, n.depth as int)
            } else {
                now == s.tried
            }
        }),
    ensures
        walks(
            a,
            now,
            bb,
            n,
            moves,
            futile,
            alpha,
            beta,
            steps.push(s),
            s.before.took(n.maximizing, moves[steps.len() as int], s.score),
        ),
{
    assert(steps.push(s).drop_last() =~= steps);
    reveal(walks);
}

/// A try from its parts.
#[verifier::spinoff_prover]
pub(crate) proof fn lemma_tries<L: OutputLayer>(
    a: BitBoardEngine<L>,
    x: BitBoardEngine<L>,
    y: BitBoardEngine<L>,
    b: BitBoardEngine<L>,
    bb: BitBoard,
    n: NodeFacts,
    m: BitMove,
    searched: int,
    alpha: i32,
    beta: i32,
    score: i32,
)
    requires
        is_legal(bb, m),
        a.keeps(b),
        a.plays_into(x, bb, m),
        replies(x, y, bb.played(m), n, m, searched, alpha, beta, bb.current_player, score),
        y.leaves_child(b),
    ensures
        tries(a, b, bb, n, m, searched, alpha, beta, score),
{
    reveal(tries);
}

/// The first child.
#[verifier::spinoff_prover]
pub(crate) proof fn lemma_replies_first<L: OutputLayer>(
    a: BitBoardEngine<L>,
    b: BitBoardEngine<L>,
    child: BitBoard,
    n: NodeFacts,
    m: BitMove,
    alpha: i32,
    beta: i32,
    p: Player,
    found: (i32, Option<BitMove>),
)
    requires
        n.depth >= 1,
        visits(a, b, child, n.depth - 1, alpha, beta, found),
    ensures
        replies(a, b, child, n, m, 0, alpha, beta, p, found.0),
{
    reveal(replies);
    assert(score_of(found) == found.0);
}

/// A later child: the glance, and the search in full where it looks promising.
#[verifier::spinoff_prover]
pub(crate) proof fn lemma_replies_later<L: OutputLayer>(
    a: BitBoardEngine<L>,
    g: Glance<L>,
    b: BitBoardEngine<L>,
    child: BitBoard,
    n: NodeFacts,
    m: BitMove,
    searched: int,
    alpha: i32,
    beta: i32,
    p: Player,
    found: (i32, Option<BitMove>),
)
    requires
        n.depth >= 1,
        searched != 0,
        a.reduction_of(n, m, searched, p) >= 0,
        ({
            let reduction = a.reduction_of(n, m, searched, p);
            let (lo, hi) = null_window(n.maximizing, alpha, beta);
            &&& visits(a, g.mid, child, reduced_depth(n, reduction), lo, hi, g.found)
            &&& if looks_again(n, reduction, alpha, beta, g.found.0) {
                visits(g.mid, b, child, n.depth - 1, alpha, beta, found)
            } else {
                b == g.mid && found.0 == g.found.0
            }
        }),
    ensures
        replies(a, b, child, n, m, searched, alpha, beta, p, found.0),
{
    reveal(replies);
    assert(score_of(found) == found.0);
    assert(g.score() == g.found.0);
}

/// A node of which only the look at the clock is known yet.
pub open spec fn blank_look<L: OutputLayer>(awake: BitBoardEngine<L>) -> Look<L> {
    Look {
        awake,
        probed: awake,
        judged: awake,
        ready: awake,
        n: NodeFacts {
            depth: 0,
            maximizing: false,
            ply: 0,
            endgame: false,
            mid_turn: false,
            static_eval: 0,
            corrected: 0,
        },
        pruned: None,
    }
}

/// A node of which only the moves are known yet.
pub open spec fn blank_expansion<L: OutputLayer>(a: BitBoardEngine<L>, moves: Seq<BitMove>) -> Expansion<L> {
    Expansion {
        listed: moves,
        sorted: moves,
        places: Seq::empty(),
        steps: Seq::empty(),
        end: Progress::start(true, 0, 0),
        walked: a,
        back: a,
        learned: a,
    }
}

impl<L: OutputLayer> Expansion<L> {
    /// The moves were walked, to the end or to a cut-off, and the previous move
    /// is the node's again.
    pub open spec fn ends_walk(
        self,
        a: BitBoardEngine<L>,
        b: BitBoardEngine<L>,
        bb: BitBoard,
        n: NodeFacts,
        moves: Seq<BitMove>,
        futile: bool,
        alpha: i32,
        beta: i32,
    ) -> bool {
        &&& walks(a, self.walked, bb, n, moves, futile, alpha, beta, self.steps, self.end)
        &&& self.end.cut || self.steps.len() == moves.len()
        &&& b == (BitBoardEngine { prev_move: a.prev_move, ..self.walked })
    }
}

/// A node that the table answers.
#[verifier::spinoff_prover]
pub(crate) proof fn lemma_looks_known<L: OutputLayer>(
    a: BitBoardEngine<L>,
    b: BitBoardEngine<L>,
    v: Look<L>,
    bb: BitBoard,
    depth: int,
    alpha: i32,
    beta: i32,
    score: i32,
)
    requires
        depth >= 0,
        a.wakes(v.awake),
        !v.awake.search_stopped,
        v.awake.probes(v.probed, bb.hash),
        b == v.probed,
        a.tt.find(bb.hash) is Some,
        score == from_tt(a.tt.find(bb.hash)->0.score as int, a.ply_of()),
    ensures
        narrowed_by(a.tt.find(bb.hash), depth, a.ply_of(), alpha, beta).2 ==> looks(
            a,
            b,
            bb,
            depth,
            alpha,
            beta,
            (score, a.tt.find(bb.hash)->0.best_move),
        ),
{
    if narrowed_by(a.tt.find(bb.hash), depth, a.ply_of(), alpha, beta).2 {
        lemma_looks(a, b, v, bb, depth, alpha, beta, (score, a.tt.find(bb.hash)->0.best_move));
    }
}

/// A finished game.
#[verifier::spinoff_prover]
pub(crate) proof fn lemma_looks_won<L: OutputLayer>(
    a: BitBoardEngine<L>,
    b: BitBoardEngine<L>,
    v: Look<L>,
    bb: BitBoard,
    depth: int,
    alpha: i32,
    beta: i32,
    score: i32,
)
    requires
        depth >= 0,
        a.wakes(v.awake),
        !v.awake.search_stopped,
        v.awake.probes(v.probed, bb.hash),
        b == v.probed,
        !narrowed_by(a.tt.find(bb.hash), depth, a.ply_of(), alpha, beta).2,
        bb@.winner() is Some,
        score == win_score_of(bb@.winner()->0, a.ply_of()),
    ensures
        looks(a, b, bb, depth, alpha, beta, (score, None)),
{
    lemma_looks(a, b, v, bb, depth, alpha, beta, (score, None));
}

/// A node with no depth left.
#[verifier::spinoff_prover]
pub(crate) proof fn lemma_looks_quiet<L: OutputLayer>(
    a: BitBoardEngine<L>,
    b: BitBoardEngine<L>,
    v: Look<L>,
    bb: BitBoard,
    depth: int,
    alpha: i32,
    beta: i32,
    lo: i32,
    hi: i32,
    score: i32,
)
    requires
        depth >= 0,
        a.wakes(v.awake),
        !v.awake.search_stopped,
        v.awake.probes(v.probed, bb.hash),
        narrowed_by(a.tt.find(bb.hash), depth, a.ply_of(), alpha, beta) == (lo, hi, false),
        bb@.winner() is None,
        depth_kept(a.tt.find(bb.hash), depth, a.knobs.iir_depth) == 0,
        settles(v.probed, b, bb, lo, hi, 0, score),
    ensures
        looks(a, b, bb, depth, alpha, beta, (score, None)),
{
    lemma_looks(a, b, v, bb, depth, alpha, beta, (score, None));
}

/// A node that pruning answers.
#[verifier::spinoff_prover]
pub(crate) proof fn lemma_looks_pruned<L: OutputLayer>(
    a: BitBoardEngine<L>,
    b: BitBoardEngine<L>,
    v: Look<L>,
    bb: BitBoard,
    depth: int,
    alpha: i32,
    beta: i32,
    lo: i32,
    hi: i32,
    score: i32,
)
    requires
        depth >= 0,
        a.wakes(v.awake),
        !v.awake.search_stopped,
        v.awake.probes(v.probed, bb.hash),
        narrowed_by(a.tt.find(bb.hash), depth, a.ply_of(), alpha, beta) == (lo, hi, false),
        bb@.winner() is None,
        depth_kept(a.tt.find(bb.hash), depth, a.knobs.iir_depth) > 0,
        v.probed.judges(v.judged, bb, depth_kept(a.tt.find(bb.hash), depth, a.knobs.iir_depth), v.n),
        v.pruned == Some(score),
        prunes(v.judged, b, bb, v.n, lo, hi, Some(score)),
    ensures
        looks(a, b, bb, depth, alpha, beta, (score, None)),
{
    lemma_looks(a, b, v, bb, depth, alpha, beta, (score, None));
}

/// A node whose moves are searched.
#[verifier::spinoff_prover]
pub(crate) proof fn lemma_looks_expanded<L: OutputLayer>(
    a: BitBoardEngine<L>,
    b: BitBoardEngine<L>,
    v: Look<L>,
    bb: BitBoard,
    depth: int,
    alpha: i32,
    beta: i32,
    lo: i32,
    hi: i32,
    tt_move: Option<BitMove>,
    r: (i32, Option<BitMove>),
)
    requires
        depth >= 0,
        a.wakes(v.awake),
        !v.awake.search_stopped,
        v.awake.probes(v.probed, bb.hash),
        narrowed_by(a.tt.find(bb.hash), depth, a.ply_of(), alpha, beta) == (lo, hi, false),
        bb@.winner() is None,
        depth_kept(a.tt.find(bb.hash), depth, a.knobs.iir_depth) > 0,
        v.probed.judges(v.judged, bb, depth_kept(a.tt.find(bb.hash), depth, a.knobs.iir_depth), v.n),
        v.pruned is None,
        prunes(v.judged, v.ready, bb, v.n, lo, hi, None),
        tt_move == match a.tt.find(bb.hash) {
            Some(x) => x.best_move,
            None => None,
        },
        expands(v.ready, b, bb, v.n, alpha, lo, hi, tt_move, r),
    ensures
        looks(a, b, bb, depth, alpha, beta, r),
{
    lemma_looks(a, b, v, bb, depth, alpha, beta, r);
}

} // verus!
