//! A search leaves the accumulators of its root as it found them.
use vstd::prelude::*;
use crate::accumulator::DualAccumulatorStack;
use crate::bitboard::BitBoard;
use crate::bitmove::BitMove;
use crate::board::Player;
use crate::engine::{BitBoardEngine, OutputLayer};
use crate::incremental::{law_update_matches_scratch, never_saturates};
use crate::movegen::lists_legal;
use crate::network::SparseNNUE;
use crate::quiet_walk::{calms, settled, settles, Calm, CalmTry, Calming};
use crate::search::NodeFacts;
use crate::squares::MAX_DEPTH;
use crate::walk::{
    depth_kept, expanded, expands, looked, looks, narrowed_by, null_window, passes, prunes, razored, reduced_depth, replies,
    score_of, tries, visits, walks, Expansion, Glance, Look, Progress, Try,
};

verus! {

/// The stack has the same height, and the places up to its top hold the same.
pub open spec fn same_places(a: DualAccumulatorStack, b: DualAccumulatorStack) -> bool {
    &&& b.depth == a.depth
    &&& b.accumulators@.len() == a.accumulators@.len()
    &&& forall|i: int| 0 <= i <= a.depth ==> #[trigger] b.accumulators@[i] == a.accumulators@[i]
}

/// The network is the same, and the accumulators are.
#[verifier::opaque]
pub open spec fn undisturbed<L: OutputLayer>(a: BitBoardEngine<L>, b: BitBoardEngine<L>) -> bool {
    b.nnue == a.nnue && same_places(a.acc_stack, b.acc_stack)
}

proof fn lemma_same<L: OutputLayer>(a: BitBoardEngine<L>, b: BitBoardEngine<L>)
    requires
        a.nnue == b.nnue,
        a.acc_stack == b.acc_stack,
    ensures
        undisturbed(a, b),
{
    reveal(undisturbed);
}

proof fn lemma_both<L: OutputLayer>(a: BitBoardEngine<L>, b: BitBoardEngine<L>, c: BitBoardEngine<L>)
    requires
        undisturbed(a, b),
        undisturbed(b, c),
    ensures
        undisturbed(a, c),
        a.acc_stack.depth == b.acc_stack.depth,
{
    reveal(undisturbed);
    assert forall|i: int| 0 <= i <= a.acc_stack.depth implies #[trigger] c.acc_stack.accumulators@[i]
        == a.acc_stack.accumulators@[i] by {
        assert(b.acc_stack.accumulators@[i] == a.acc_stack.accumulators@[i]);
    }
}

proof fn lemma_height<L: OutputLayer>(a: BitBoardEngine<L>, b: BitBoardEngine<L>)
    requires
        undisturbed(a, b),
    ensures
        a.acc_stack.depth == b.acc_stack.depth,
{
    reveal(undisturbed);
}

/// A child that is entered, searched and left.
#[verifier::spinoff_prover]
proof fn lemma_child<L: OutputLayer>(
    a: BitBoardEngine<L>,
    x: BitBoardEngine<L>,
    y: BitBoardEngine<L>,
    b: BitBoardEngine<L>,
    bb: BitBoard,
    child: BitBoard,
)
    requires
        a.acc_stack.depth + 1 < MAX_DEPTH,
        a.enters_child(x, bb, child),
        undisturbed(x, y),
        y.leaves_child(b),
    ensures
        undisturbed(a, b),
{
    reveal(undisturbed);
    reveal(BitBoardEngine::enters_child);
    reveal(BitBoardEngine::leaves_child);
    assert forall|i: int| 0 <= i <= a.acc_stack.depth implies #[trigger] b.acc_stack.accumulators@[i]
        == a.acc_stack.accumulators@[i] by {
        assert(y.acc_stack.accumulators@[i] == x.acc_stack.accumulators@[i]);
        assert(x.acc_stack.accumulators@[i] == a.acc_stack.accumulators@[i]);
    }
}

proof fn lemma_deeper<L: OutputLayer>(a: BitBoardEngine<L>, x: BitBoardEngine<L>, bb: BitBoard, child: BitBoard)
    requires
        a.enters_child(x, bb, child),
    ensures
        x.acc_stack.depth <= a.acc_stack.depth + 1,
{
    reveal(BitBoardEngine::enters_child);
}

#[verifier::spinoff_prover]
proof fn lemma_settles_stack<L: OutputLayer>(
    a: BitBoardEngine<L>,
    b: BitBoardEngine<L>,
    bb: BitBoard,
    alpha: i32,
    beta: i32,
    qsdepth: int,
    r: i32,
)
    requires
        settles(a, b, bb, alpha, beta, qsdepth, r),
        a.acc_stack.depth + 7 - qsdepth < MAX_DEPTH,
    ensures
        undisturbed(a, b),
    decreases 8 - qsdepth, 1int, 0int,
{
    reveal(settles);
    reveal(BitBoardEngine::evaluates);
    let v = choose|v: Calm<L>| #![trigger v.begins(a)] v.begins(a) && settled(a, b, v, bb, alpha, beta, qsdepth, r);
    lemma_same(a, v.counted);
    if bb@.winner() is None {
        lemma_same(a, v.judged);
        if b != v.judged {
            lemma_calms_stack(v.judged, b, bb, v.moves, alpha, beta, qsdepth, v.stand_pat, v.steps, v.end);
            lemma_both(a, v.judged, b);
        }
    }
}

#[verifier::spinoff_prover]
proof fn lemma_calms_stack<L: OutputLayer>(
    a: BitBoardEngine<L>,
    now: BitBoardEngine<L>,
    bb: BitBoard,
    moves: Seq<BitMove>,
    alpha: i32,
    beta: i32,
    qsdepth: int,
    stand_pat: i32,
    steps: Seq<CalmTry<L>>,
    end: Calming,
)
    requires
        calms(a, now, bb, moves, alpha, beta, qsdepth, stand_pat, steps, end),
        qsdepth <= 6,
        a.acc_stack.depth + 7 - qsdepth < MAX_DEPTH,
    ensures
        undisturbed(a, now),
    decreases 7 - qsdepth, 2int, steps.len(),
{
    reveal(calms);
    if steps.len() == 0 {
        lemma_same(a, now);
    } else {
        let s = steps.last();
        let c = bb.played(moves[steps.len() - 1]);
        lemma_calms_stack(a, s.from, bb, moves, alpha, beta, qsdepth, stand_pat, steps.drop_last(), s.before);
        lemma_height(a, s.from);
        lemma_deeper(s.from, s.entered, bb, c);
        lemma_settles_stack(s.entered, s.settled, c, s.before.alpha, beta, qsdepth + 1, s.score);
        lemma_child(s.from, s.entered, s.settled, now, bb, c);
        lemma_both(a, s.from, now);
    }
}

#[verifier::spinoff_prover]
proof fn lemma_looks_stack<L: OutputLayer>(
    a: BitBoardEngine<L>,
    b: BitBoardEngine<L>,
    bb: BitBoard,
    depth: int,
    alpha: i32,
    beta: i32,
    r: (i32, Option<BitMove>),
)
    requires
        looks(a, b, bb, depth, alpha, beta, r),
        a.acc_stack.depth + depth + 7 < MAX_DEPTH,
    ensures
        undisturbed(a, b),
    decreases depth, 4int, 0int,
{
    reveal(looks);
    reveal(BitBoardEngine::evaluates);
    let v = choose|v: Look<L>|
        #![trigger a.wakes(v.awake)]
        a.wakes(v.awake) && looked(a, b, v, bb, depth, alpha, beta, r);
    lemma_same(a, v.awake);
    if !v.awake.search_stopped {
        lemma_same(a, v.probed);
        let e = a.tt.find(bb.hash);
        let (lo, hi, known) = narrowed_by(e, depth, a.ply_of(), alpha, beta);
        let d = depth_kept(e, depth, a.knobs.iir_depth);
        if !known && bb@.winner() is None {
            if d == 0 {
                lemma_settles_stack(v.probed, b, bb, lo, hi, 0, r.0);
                lemma_both(a, v.probed, b);
            } else {
                lemma_same(a, v.judged);
                match v.pruned {
                    Some(s) => {
                        lemma_prunes_stack(v.judged, b, bb, v.n, lo, hi, Some(s));
                        lemma_both(a, v.judged, b);
                    },
                    None => {
                        lemma_prunes_stack(v.judged, v.ready, bb, v.n, lo, hi, None);
                        lemma_both(a, v.judged, v.ready);
                        lemma_height(a, v.ready);
                        lemma_expands_stack(
                            v.ready,
                            b,
                            bb,
                            v.n,
                            alpha,
                            lo,
                            hi,
                            match e {
                                Some(x) => x.best_move,
                                None => None,
                            },
                            r,
                        );
                        lemma_both(a, v.ready, b);
                    },
                }
            }
        }
    }
}

#[verifier::spinoff_prover]
proof fn lemma_prunes_stack<L: OutputLayer>(
    a: BitBoardEngine<L>,
    b: BitBoardEngine<L>,
    bb: BitBoard,
    n: NodeFacts,
    alpha: i32,
    beta: i32,
    s: Option<i32>,
)
    requires
        prunes(a, b, bb, n, alpha, beta, s),
        a.acc_stack.depth + n.depth + 7 < MAX_DEPTH,
    ensures
        undisturbed(a, b),
    decreases n.depth as int, 2int, 0int,
{
    reveal(prunes);
    reveal(passes);
    let (mid, q) = choose|mid: BitBoardEngine<L>, q: i32|
        #![trigger razored(a, mid, bb, n, alpha, beta, q)]
        razored(a, mid, bb, n, alpha, beta, q) && if a.razors(n, alpha, beta) && (if n.maximizing {
            q < alpha
        } else {
            q > beta
        }) {
            s == Some(q) && b == mid
        } else if mid.reverse_futility_score(n, alpha, beta) is Some {
            s is Some && s->0 == mid.reverse_futility_score(n, alpha, beta)->0 && b == mid
        } else if mid.null_move_fits(n, bb.near_goal(), alpha, beta) {
            passes(mid, b, bb, n, alpha, beta, s)
        } else {
            s is None && b == mid
        };
    if a.razors(n, alpha, beta) {
        lemma_settles_stack(a, mid, bb, alpha, beta, 0, q);
    } else {
        lemma_same(a, mid);
    }
    if b != mid {
        lemma_height(a, mid);
        let d = mid.null_depth_of(n, alpha, beta);
        let (lo, hi) = null_window(!n.maximizing, alpha, beta);
        let found = choose|found: (i32, Option<BitMove>)|
            #![trigger score_of(found)]
            0 <= d < n.depth && visits(mid, b, bb.null_played(), d, lo, hi, found) && s == if n.maximizing {
                if score_of(found) >= beta {
                    Some(beta)
                } else {
                    None
                }
            } else {
                if score_of(found) <= alpha {
                    Some(alpha)
                } else {
                    None
                }
            };
        law_search_keeps_accumulators(mid, b, bb.null_played(), d, lo, hi, found);
        lemma_both(a, mid, b);
    }
}

#[verifier::spinoff_prover]
proof fn lemma_expands_stack<L: OutputLayer>(
    a: BitBoardEngine<L>,
    b: BitBoardEngine<L>,
    bb: BitBoard,
    n: NodeFacts,
    first_alpha: i32,
    alpha: i32,
    beta: i32,
    tt_move: Option<BitMove>,
    r: (i32, Option<BitMove>),
)
    requires
        expands(a, b, bb, n, first_alpha, alpha, beta, tt_move, r),
        a.acc_stack.depth + n.depth + 7 < MAX_DEPTH,
    ensures
        undisturbed(a, b),
    decreases n.depth as int, 2int, 0int,
{
    reveal(expands);
    let x = choose|x: Expansion<L>|
        #![trigger lists_legal(x.listed, bb@)]
        lists_legal(x.listed, bb@) && expanded(a, b, x, bb, n, first_alpha, alpha, beta, tt_move, r);
    if x.listed.len() == 0 {
        lemma_same(a, b);
    } else {
        lemma_walks_stack(a, x.walked, bb, n, x.sorted, a.futile(n, alpha, beta), alpha, beta, x.steps, x.end);
        lemma_same(x.walked, b);
        lemma_both(a, x.walked, b);
    }
}

#[verifier::spinoff_prover]
proof fn lemma_walks_stack<L: OutputLayer>(
    a: BitBoardEngine<L>,
    now: BitBoardEngine<L>,
    bb: BitBoard,
    n: NodeFacts,
    moves: Seq<BitMove>,
    futile: bool,
    alpha: i32,
    beta: i32,
    steps: Seq<Try<L>>,
    end: Progress,
)
    requires
        walks(a, now, bb, n, moves, futile, alpha, beta, steps, end),
        a.acc_stack.depth + n.depth + 7 < MAX_DEPTH,
    ensures
        undisturbed(a, now),
    decreases n.depth as int, 1int, steps.len(),
{
    reveal(walks);
    if steps.len() == 0 {
        lemma_same(a, now);
    } else {
        let s = steps.last();
        let m = moves[steps.len() - 1];
        let p = s.before;
        lemma_walks_stack(a, s.from, bb, n, moves, futile, alpha, beta, steps.drop_last(), p);
        if !s.from.skips(n, m, p.searched, p.best, futile, a.lmp_threshold_of(n), bb.current_player) {
            lemma_height(a, s.from);
            lemma_tries_stack(s.from, s.tried, bb, n, m, p.searched, p.alpha, p.beta, s.score);
            lemma_both(a, s.from, s.tried);
            lemma_same(s.tried, now);
            lemma_both(a, s.tried, now);
        }
    }
}

#[verifier::spinoff_prover]
proof fn lemma_tries_stack<L: OutputLayer>(
    a: BitBoardEngine<L>,
    b: BitBoardEngine<L>,
    bb: BitBoard,
    n: NodeFacts,
    m: BitMove,
    searched: int,
    alpha: i32,
    beta: i32,
    score: i32,
)
    requires
        tries(a, b, bb, n, m, searched, alpha, beta, score),
        a.acc_stack.depth + n.depth + 7 < MAX_DEPTH,
    ensures
        undisturbed(a, b),
    decreases n.depth as int, 0int, 1int,
{
    reveal(tries);
    let c = bb.played(m);
    let p = bb.current_player;
    let (x, y) = choose|x: BitBoardEngine<L>, y: BitBoardEngine<L>|
        #![trigger a.plays_into(x, bb, m), y.leaves_child(b)]
        a.plays_into(x, bb, m) && replies(x, y, c, n, m, searched, alpha, beta, p, score) && y.leaves_child(b);
    let w = BitBoardEngine { prev_move: a.prev_move, ..x };
    lemma_deeper(a, w, bb, c);
    lemma_same(w, x);
    lemma_replies_stack(x, y, c, n, m, searched, alpha, beta, p, score);
    lemma_both(w, x, y);
    lemma_child(a, w, y, b, bb, c);
}

#[verifier::spinoff_prover]
proof fn lemma_replies_stack<L: OutputLayer>(
    a: BitBoardEngine<L>,
    b: BitBoardEngine<L>,
    child: BitBoard,
    n: NodeFacts,
    m: BitMove,
    searched: int,
    alpha: i32,
    beta: i32,
    p: Player,
    score: i32,
)
    requires
        replies(a, b, child, n, m, searched, alpha, beta, p, score),
        a.acc_stack.depth + n.depth + 6 < MAX_DEPTH,
    ensures
        undisturbed(a, b),
    decreases n.depth as int, 0int, 0int,
{
    reveal(replies);
    if searched == 0 {
        let found = choose|found: (i32, Option<BitMove>)|
            #![trigger score_of(found)]
            visits(a, b, child, n.depth - 1, alpha, beta, found) && score == score_of(found);
        law_search_keeps_accumulators(a, b, child, n.depth - 1, alpha, beta, found);
    } else {
        let reduction = a.reduction_of(n, m, searched, p);
        let d = reduced_depth(n, reduction);
        let (lo, hi) = null_window(n.maximizing, alpha, beta);
        let g = choose|g: Glance<L>|
            #![trigger g.score()]
            visits(a, g.mid, child, d, lo, hi, g.found) && if crate::walk::looks_again(n, reduction, alpha, beta, g.score()) {
                exists|found: (i32, Option<BitMove>)|
                    #![trigger score_of(found)]
                    visits(g.mid, b, child, n.depth - 1, alpha, beta, found) && score == score_of(found)
            } else {
                b == g.mid && score == g.score()
            };
        law_search_keeps_accumulators(a, g.mid, child, d, lo, hi, g.found);
        if crate::walk::looks_again(n, reduction, alpha, beta, g.score()) {
            let found = choose|found: (i32, Option<BitMove>)|
                #![trigger score_of(found)]
                visits(g.mid, b, child, n.depth - 1, alpha, beta, found) && score == score_of(found);
            lemma_height(a, g.mid);
            law_search_keeps_accumulators(g.mid, b, child, n.depth - 1, alpha, beta, found);
            lemma_both(a, g.mid, b);
        }
    }
}

/// A search of a position keeps the accumulators: with room on the stack for its
/// depth and a quiescence, every place up to the top holds what it held.
#[verifier::spinoff_prover]
pub proof fn law_search_keeps_accumulators<L: OutputLayer>(
    a: BitBoardEngine<L>,
    b: BitBoardEngine<L>,
    bb: BitBoard,
    depth: int,
    alpha: i32,
    beta: i32,
    r: (i32, Option<BitMove>),
)
    requires
        visits(a, b, bb, depth, alpha, beta, r),
        a.acc_stack.depth + depth + 7 < MAX_DEPTH,
    ensures
        undisturbed(a, b),
    decreases depth, 5int, 0int,
{
    reveal(visits);
    if a.is_draw_node(bb) || (a.path_hashes@.len() > 0 && a.table_value(bb) is Some) {
        lemma_same(a, b);
    } else {
        let (x, y) = choose|x: BitBoardEngine<L>, y: BitBoardEngine<L>|
            #![trigger a.steps_onto(x, bb.hash), y.steps_back(b)]
            a.steps_onto(x, bb.hash) && looks(x, y, bb, depth, alpha, beta, r) && y.steps_back(b);
        lemma_same(a, x);
        lemma_looks_stack(x, y, bb, depth, alpha, beta, r);
        lemma_same(y, b);
        lemma_both(a, x, y);
        lemma_both(a, y, b);
    }
}

/// A child's accumulators hold its sums from scratch if its parent's do and no
/// sum leaves the range on the way.
pub proof fn law_children_hold_their_sums<L: OutputLayer>(
    a: BitBoardEngine<L>,
    x: BitBoardEngine<L>,
    net: SparseNNUE,
    bb: BitBoard,
    child: BitBoard,
)
    requires
        net.wf(),
        bb.inv(),
        child.inv(),
        a.nnue == Some(net),
        net.holds(bb, a.acc_stack.top()),
        a.enters_child(x, bb, child),
        forall|p: Player, j: int|
            0 <= j < net.config.hidden1 ==> #[trigger] never_saturates(net, bb, child, p, j),
    ensures
        net.holds(child, x.acc_stack.top()),
{
    reveal(BitBoardEngine::enters_child);
    reveal(SparseNNUE::brings);
    let s = a.acc_stack.top();
    let t = x.acc_stack.top();
    assert forall|j: int| 0 <= j < net.config.hidden1 implies #[trigger] t.white_pre@[j] == net.scratch(
        child,
        Player::White,
        j,
    ) by {
        assert(never_saturates(net, bb, child, Player::White, j));
        law_update_matches_scratch(net, bb, child, Player::White, j);
        assert(s.white_pre@[j] == net.scratch(bb, Player::White, j));
    }
    assert forall|j: int| 0 <= j < net.config.hidden1 implies #[trigger] t.black_pre@[j] == net.scratch(
        child,
        Player::Black,
        j,
    ) by {
        assert(never_saturates(net, bb, child, Player::Black, j));
        law_update_matches_scratch(net, bb, child, Player::Black, j);
        assert(s.black_pre@[j] == net.scratch(bb, Player::Black, j));
    }
}

} // verus!
