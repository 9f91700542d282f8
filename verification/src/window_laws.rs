//! What a search does with windows: which moves are searched in full, which scores
//! stand, and how one iteration follows on another.
use vstd::prelude::*;
use crate::bitboard::BitBoard;
use crate::bitmove::BitMove;
use crate::board::Player;
use crate::deepening::proven_win;
use crate::engine::{BitBoardEngine, OutputLayer};
use crate::movegen::lists_legal;
use crate::node::to_tt;
use crate::root_walk::{deepens, misses, Aim, Iteration, Miss, RootSearch};
use crate::search::NodeFacts;
use crate::search_laws::{is_news, table_says};
use crate::tablebase::Tablebase;
use crate::tt::{stored_in, TTEntry, TTFlag};
use crate::walk::{
    expanded, expands, flag_of, looked, looks, looks_again, null_window, passes, prunes, razored, reduced_depth, replies, score_of, visits,
    Expansion, Glance, Look,
};

verus! {

/// A score inside the window comes from a search with the whole window, one less
/// deep than the node, however late the move; the first move's always does.
#[verifier::spinoff_prover]
pub proof fn law_scores_inside_the_window_are_full<L: OutputLayer>(
    a: BitBoardEngine<L>,
    b: BitBoardEngine<L>,
    child: BitBoard,
    n: NodeFacts,
    m: BitMove,
    searched: int,
    alpha: i32,
    beta: i32,
    p: Player,
    score: i32,
)
    requires
        replies(a, b, child, n, m, searched, alpha, beta, p, score),
        searched == 0 || alpha < score < beta,
    ensures
        exists|from: BitBoardEngine<L>, found: (i32, Option<BitMove>)|
            #![trigger visits(from, b, child, n.depth - 1, alpha, beta, found)]
            visits(from, b, child, n.depth - 1, alpha, beta, found) && score == found.0,
{
    reveal(replies);
    if searched == 0 {
        let found = choose|found: (i32, Option<BitMove>)|
            #![trigger score_of(found)]
            visits(a, b, child, n.depth - 1, alpha, beta, found) && score == score_of(found);
        assert(visits(a, b, child, n.depth - 1, alpha, beta, found));
    } else {
        let reduction = a.reduction_of(n, m, searched, p);
        let d = reduced_depth(n, reduction);
        let (lo, hi) = null_window(n.maximizing, alpha, beta);
        let g = choose|g: Glance<L>|
            #![trigger g.score()]
            visits(a, g.mid, child, d, lo, hi, g.found) && if looks_again(n, reduction, alpha, beta, g.score()) {
                exists|found: (i32, Option<BitMove>)|
                    #![trigger score_of(found)]
                    visits(g.mid, b, child, n.depth - 1, alpha, beta, found) && score == score_of(found)
            } else {
                b == g.mid && score == g.score()
            };
        let found = choose|found: (i32, Option<BitMove>)|
            #![trigger score_of(found)]
            visits(g.mid, b, child, n.depth - 1, alpha, beta, found) && score == score_of(found);
        assert(visits(g.mid, b, child, n.depth - 1, alpha, beta, found));
    }
}

/// A late move is first searched with the narrowest window at the mover's bound,
/// and less deep by its reduction. What that search found stands if the mover does
/// not gain by it, or where nothing was taken off the depth and it leaves the
/// window; else the move is searched again with the whole window and depth.
#[verifier::spinoff_prover]
pub proof fn law_late_moves_are_glanced_at<L: OutputLayer>(
    a: BitBoardEngine<L>,
    b: BitBoardEngine<L>,
    child: BitBoard,
    n: NodeFacts,
    m: BitMove,
    searched: int,
    alpha: i32,
    beta: i32,
    p: Player,
    score: i32,
)
    requires
        replies(a, b, child, n, m, searched, alpha, beta, p, score),
        searched > 0,
        i32::MIN < beta,
        alpha < i32::MAX,
    ensures
        ({
            let cut = a.reduction_of(n, m, searched, p);
            let d = if n.depth - 1 - cut > 0 {
                n.depth - 1 - cut
            } else {
                0
            };
            let lo = if n.maximizing {
                alpha
            } else {
                (beta - 1) as i32
            };
            exists|mid: BitBoardEngine<L>, glance: (i32, Option<BitMove>), less: int, low: i32, high: i32|
                {
                    &&& #[trigger] visits(a, mid, child, less, low, high, glance)
                    &&& less == d
                    &&& low == lo
                    &&& high == lo + 1
                    &&& n.maximizing && glance.0 <= alpha ==> b == mid && score == glance.0
                    &&& !n.maximizing && glance.0 >= beta ==> b == mid && score == glance.0
                    &&& cut <= 0 && !(alpha < glance.0 < beta) ==> b == mid && score == glance.0
                    &&& (cut > 0 || alpha < glance.0 < beta) && (if n.maximizing {
                        glance.0 > alpha
                    } else {
                        glance.0 < beta
                    }) ==> exists|found: (i32, Option<BitMove>)|
                        #![trigger visits(mid, b, child, n.depth - 1, alpha, beta, found)]
                        visits(mid, b, child, n.depth - 1, alpha, beta, found) && score == found.0
                }
        }),
{
    reveal(replies);
    let reduction = a.reduction_of(n, m, searched, p);
    let d = reduced_depth(n, reduction);
    let (lo, hi) = null_window(n.maximizing, alpha, beta);
    let g = choose|g: Glance<L>|
        #![trigger g.score()]
        visits(a, g.mid, child, d, lo, hi, g.found) && if looks_again(n, reduction, alpha, beta, g.score()) {
            exists|found: (i32, Option<BitMove>)|
                #![trigger score_of(found)]
                visits(g.mid, b, child, n.depth - 1, alpha, beta, found) && score == score_of(found)
        } else {
            b == g.mid && score == g.score()
        };
    assert(visits(a, g.mid, child, d, lo, hi, g.found));
    if looks_again(n, reduction, alpha, beta, g.score()) {
        let found = choose|found: (i32, Option<BitMove>)|
            #![trigger score_of(found)]
            visits(g.mid, b, child, n.depth - 1, alpha, beta, found) && score == score_of(found);
        assert(visits(g.mid, b, child, n.depth - 1, alpha, beta, found));
    }
}

/// The score of a root was found inside the window it was searched with, at its
/// full depth; with no earlier score to go by, that is the whole window.
#[verifier::spinoff_prover]
pub proof fn law_root_scores_lie_inside<L: OutputLayer>(
    e: BitBoardEngine<L>,
    after: BitBoardEngine<L>,
    bb: BitBoard,
    depth: int,
    prev: Option<i32>,
    r: (i32, Option<BitMove>),
)
    requires
        e.aspirates(after, bb, depth, prev, r),
    ensures
        exists|from: BitBoardEngine<L>, alpha: i32, beta: i32|
            {
                &&& #[trigger] visits(from, after, bb, depth, alpha, beta, r)
                &&& alpha < r.0 < beta
                &&& prev is None ==> alpha == i32::MIN + 1 && beta == i32::MAX - 1 && from.path_hashes@.len() == 0
                    && from.root_player == bb.current_player && from.nodes_searched == 0
            },
{
    reveal(BitBoardEngine::aspirates);
    let v = choose|v: RootSearch<L>|
        #![trigger e.begins_search(v.begun, bb, prev is None)]
        {
            &&& e.begins_search(v.begun, bb, prev is None)
            &&& prev is None ==> v.tried.len() == 0
            &&& misses(v.begun, v.last, bb, depth, prev, v.tried, v.aim)
            &&& visits(v.last, after, bb, depth, v.aim.alpha, v.aim.beta, r)
            &&& v.aim.holds(r.0)
        };
    reveal(BitBoardEngine::begins_search);
    assert(visits(v.last, after, bb, depth, v.aim.alpha, v.aim.beta, r));
    if prev is None {
        lemma_no_miss(v.begun, v.last, bb, depth, v.tried, v.aim);
    }
}

proof fn lemma_no_miss<L: OutputLayer>(
    begun: BitBoardEngine<L>,
    now: BitBoardEngine<L>,
    bb: BitBoard,
    depth: int,
    tried: Seq<Miss<L>>,
    aim: Aim,
)
    requires
        misses(begun, now, bb, depth, None, tried, aim),
        tried.len() == 0,
    ensures
        now == begun,
        aim.alpha == i32::MIN + 1,
        aim.beta == i32::MAX - 1,
{
    reveal(misses);
}

/// A window around a score holds it, and a score outside moves the failed side past
/// that score and leaves the other one.
pub proof fn law_windows_give_way(prev: i32, asp_delta: i32, aim: Aim, score: i32)
    requires
        -200_000 <= prev <= 200_000,
        -200_000 <= score <= 200_000,
        1 <= aim.delta <= 1_000_000,
    ensures
        Aim::first(Some(prev), asp_delta).alpha < prev < Aim::first(Some(prev), asp_delta).beta,
        score <= aim.alpha ==> aim.widened(score).alpha < score && aim.widened(score).beta == aim.beta,
        score >= aim.beta && score > aim.alpha ==> aim.widened(score).beta > score && aim.widened(score).alpha == aim.alpha,
        aim.widened(score).delta == 2 * aim.delta,
        1 <= asp_delta <= 1_000_000 && prev - asp_delta >= -1_000_000 && prev + asp_delta <= 1_000_000 ==> Aim::first(
            Some(prev),
            asp_delta,
        ) == (Aim { alpha: (prev - asp_delta) as i32, beta: (prev + asp_delta) as i32, delta: asp_delta }),
        score <= aim.alpha && aim.delta <= 500 ==> aim.widened(score).alpha == score - 2 * aim.delta,
        score <= aim.alpha && aim.delta > 500 ==> aim.widened(score).alpha == i32::MIN + 1,
        score > aim.alpha && aim.delta <= 500 ==> aim.widened(score).beta == score + 2 * aim.delta,
        score > aim.alpha && aim.delta > 500 ==> aim.widened(score).beta == i32::MAX - 1,
{
}

/// At the start of a search what was learned of moves and errors fades to a half, the
/// fraction dropped; killers and counters start over, and the draws are those of the
/// side to move.
#[verifier::spinoff_prover]
pub proof fn law_learning_fades<L: OutputLayer>(e: BitBoardEngine<L>, f: BitBoardEngine<L>, bb: BitBoard, first: bool, i: int)
    requires
        e.begins_search(f, bb, first),
        0 <= i < 1296,
        f.killer_moves@.len() == 32,
        -1_000_000 <= e.history@[i] <= 1_000_000,
        -1_000_000 <= e.cont_history@[i] <= 1_000_000,
        -1_000_000 <= e.correction_history@[i] <= 1_000_000,
    ensures
        half_of(f.history@[i] as int, e.history@[i] as int),
        half_of(f.cont_history@[i] as int, e.cont_history@[i] as int),
        half_of(f.correction_history@[i] as int, e.correction_history@[i] as int),
        f.root_player == bb.current_player,
        f.nodes_searched == 0 && f.cutoffs == 0 && f.tt_hits == 0 && f.quiesce_nodes == 0,
        f.path_hashes@.len() == 0,
        f.game_history == e.game_history,
        0 <= i < 32 ==> f.killer_moves@[i].0 is None && f.killer_moves@[i].1 is None,
{
    reveal(BitBoardEngine::begins_search);
}

/// Half of a number, the fraction dropped.
pub open spec fn half_of(half: int, x: int) -> bool {
    -1 <= x - 2 * half <= 1 && (x >= 0 ==> 0 <= 2 * half <= x) && (x <= 0 ==> x <= 2 * half <= 0)
}

/// Every score above 90000 proves a win for white, every score below -90000 one for
/// black, and no other score proves anything.
pub proof fn law_proven_wins(score: int, moves: int)
    requires
        0 <= moves < 10_000,
    ensures
        proven_win(Player::White, score) <==> score > 90_000,
        proven_win(Player::Black, score) <==> proven_win(Player::White, -score),
        proven_win(Player::White, 100_000 - moves),
        !proven_win(Player::Black, 100_000 - moves),
{
}

/// Iterations go on one deeper each, the last as deep as there are iterations. None
/// follows on a score that proves a win for the side to move, and what is reported
/// is the last one's score.
#[verifier::spinoff_prover]
pub proof fn law_iterations_deepen<L: OutputLayer>(
    first: BitBoardEngine<L>,
    iterations: Seq<Iteration<L>>,
    end: BitBoardEngine<L>,
    bb: BitBoard,
    r: (i32, Option<BitMove>),
    k: int,
)
    requires
        deepens(first, iterations, end, bb, r),
        0 <= k < iterations.len(),
    ensures
        iterations[k].ready.aspirates(
            iterations[k].searched,
            bb,
            k + 1,
            if k == 0 {
                None
            } else {
                Some(iterations[k - 1].found.0)
            },
            iterations[k].found,
        ),
        k < iterations.len() - 1 && bb.current_player == Player::White ==> iterations[k].found.0 <= 90_000,
        k < iterations.len() - 1 && bb.current_player == Player::Black ==> iterations[k].found.0 >= -90_000,
        r.0 == iterations.last().found.0,
        iterations.last().found.1 is Some ==> r.1 == iterations.last().found.1,
        iterations.last().found.1 is None ==> r.1 == iterations.last().before.1,
    decreases iterations.len(),
{
    reveal(deepens);
    let s = iterations.last();
    let n = iterations.len() as int;
    if n > 1 {
        law_iterations_deepen(
            first,
            iterations.drop_last(),
            s.from,
            bb,
            s.before,
            if k < n - 1 {
                k
            } else {
                n - 2
            },
        );
    }
}

/// A leaf that no rule draws and that the tables know as won is worth that win, as
/// many moves from the root as it is away and then still has to go.
pub proof fn law_table_wins_at_leaves<L: OutputLayer>(
    e: BitBoardEngine<L>,
    root: Player,
    path: Seq<u64>,
    c: BitBoard,
    winner: Player,
    moves: int,
)
    requires
        table_says(e, c, winner, moves),
        !path.contains(c.hash),
        !e.game_history@.contains(c.hash),
        e.no_progress_limit == 0 || c.halfmove_clock < e.no_progress_limit,
    ensures
        winner == Player::White ==> e.leaf_value(root, path, c) == 100_000 - (path.len() + moves),
        winner == Player::Black ==> e.leaf_value(root, path, c) == -100_000 + (path.len() + moves),
{
    reveal(BitBoardEngine::leaf_value);
    let v = choose|v: u8| #[trigger]
        call_ensures(Tablebase::value, (&e.tablebase->0, &c), Some(v)) && match winner {
            Player::White => 1 <= v <= 121 && moves == v - 1,
            Player::Black => 129 <= v <= 249 && moves == v - 129,
        };
    assert(e.table_value(c) == Some(v));
}

/// A leaf that a rule draws costs the player at the root the contempt.
pub proof fn law_draws_at_leaves<L: OutputLayer>(e: BitBoardEngine<L>, root: Player, path: Seq<u64>, c: BitBoard)
    requires
        path.contains(c.hash) || e.game_history@.contains(c.hash) || e.no_progress_limit > 0 && c.halfmove_clock
            >= e.no_progress_limit,
    ensures
        root == Player::White ==> e.leaf_value(root, path, c) == -e.contempt,
        root == Player::Black ==> e.leaf_value(root, path, c) == e.contempt,
{
    reveal(BitBoardEngine::leaf_value);
}

/// What is answered without searching the moves never lies inside the window.
#[verifier::spinoff_prover]
pub proof fn law_pruned_answers_lie_outside<L: OutputLayer>(
    a: BitBoardEngine<L>,
    b: BitBoardEngine<L>,
    bb: BitBoard,
    n: NodeFacts,
    alpha: i32,
    beta: i32,
    s: i32,
)
    requires
        prunes(a, b, bb, n, alpha, beta, Some(s)),
        alpha < beta,
    ensures
        s <= alpha || s >= beta,
{
    reveal(prunes);
    let (mid, q) = choose|mid: BitBoardEngine<L>, q: i32|
        #![trigger razored(a, mid, bb, n, alpha, beta, q)]
        razored(a, mid, bb, n, alpha, beta, q) && if a.razors(n, alpha, beta) && (if n.maximizing {
            q < alpha
        } else {
            q > beta
        }) {
            Some(s) == Some(q) && b == mid
        } else if mid.reverse_futility_score(n, alpha, beta) is Some {
            Some(s) is Some && s == mid.reverse_futility_score(n, alpha, beta)->0 && b == mid
        } else if mid.null_move_fits(n, bb.near_goal(), alpha, beta) {
            passes(mid, b, bb, n, alpha, beta, Some(s))
        } else {
            Some(s) is None && b == mid
        };
    if passes(mid, b, bb, n, alpha, beta, Some(s)) {
        law_passing_must_hold_the_bound(mid, b, bb, n, alpha, beta, Some(s));
    }
}

/// A side that passes is answered by its bound exactly if the position after the pass,
/// searched less deep with the narrowest window there, still holds that bound.
#[verifier::spinoff_prover]
pub proof fn law_passing_must_hold_the_bound<L: OutputLayer>(
    a: BitBoardEngine<L>,
    b: BitBoardEngine<L>,
    bb: BitBoard,
    n: NodeFacts,
    alpha: i32,
    beta: i32,
    s: Option<i32>,
)
    requires
        passes(a, b, bb, n, alpha, beta, s),
        alpha < i32::MAX,
        beta > i32::MIN,
    ensures
        exists|d: int, lo: i32, hi: i32, found: (i32, Option<BitMove>)|
            {
                &&& #[trigger] visits(a, b, bb.null_played(), d, lo, hi, found)
                &&& 0 <= d < n.depth
                &&& hi == lo + 1
                &&& n.maximizing ==> hi == beta && (s is Some <==> found.0 >= beta)
                &&& !n.maximizing ==> lo == alpha && (s is Some <==> found.0 <= alpha)
            },
        s matches Some(v) ==> v == if n.maximizing {
            beta
        } else {
            alpha
        },
{
    reveal(passes);
    let d = a.null_depth_of(n, alpha, beta);
    let (lo, hi) = null_window(!n.maximizing, alpha, beta);
    let found = choose|found: (i32, Option<BitMove>)|
        #![trigger score_of(found)]
        0 <= d < n.depth && visits(a, b, bb.null_played(), d, lo, hi, found) && s == if n.maximizing {
            if score_of(found) >= beta {
                Some(beta)
            } else {
                None
            }
        } else {
            if score_of(found) <= alpha {
                Some(alpha)
            } else {
                None
            }
        };
    assert(visits(a, b, bb.null_played(), d, lo, hi, found));
}

/// A node whose moves were searched is remembered with its depth, score and best move,
/// as exact if the score was inside the window that it began with and below the upper
/// bound that it ended with. A side without a move is left at its evaluation.
#[verifier::spinoff_prover]
pub proof fn law_searched_nodes_are_remembered<L: OutputLayer>(
    a: BitBoardEngine<L>,
    b: BitBoardEngine<L>,
    bb: BitBoard,
    n: NodeFacts,
    first_alpha: i32,
    alpha: i32,
    beta: i32,
    tt_move: Option<BitMove>,
    r: (i32, Option<BitMove>),
)
    requires
        expands(a, b, bb, n, first_alpha, alpha, beta, tt_move, r),
    ensures
        r.1 is None ==> r.0 == n.static_eval && b == a,
        r.1 is Some && -90_000 <= r.0 <= 90_000 ==> {
            let x = b.tt.find(bb.hash);
            &&& x is Some
            &&& x->0.depth == n.depth && x->0.score == r.0 && x->0.best_move == r.1
            &&& r.0 <= first_alpha <==> x->0.flag == TTFlag::UpperBound
        },
{
    reveal(expands);
    reveal(stored_in);
    let x = choose|x: Expansion<L>|
        #![trigger lists_legal(x.listed, bb@)]
        lists_legal(x.listed, bb@) && expanded(a, b, x, bb, n, first_alpha, alpha, beta, tt_move, r);
    if r.1 is Some {
        let e = b.tt.find(bb.hash);
        assert(e is Some && e->0.depth == n.depth && e->0.best_move == r.1);
        assert(e->0.flag == flag_of(r.0, first_alpha, x.end.beta));
        if -90_000 <= r.0 <= 90_000 {
            assert(to_tt(r.0 as int, n.ply as int) == r.0);
        }
    }
}

/// A node that the table knows exactly and deep enough is answered from it.
#[verifier::spinoff_prover]
pub proof fn law_deep_entries_answer<L: OutputLayer>(
    a: BitBoardEngine<L>,
    b: BitBoardEngine<L>,
    bb: BitBoard,
    depth: int,
    alpha: i32,
    beta: i32,
    r: (i32, Option<BitMove>),
    e: TTEntry,
)
    requires
        visits(a, b, bb, depth, alpha, beta, r),
        a.path_hashes@.len() == 0 || is_news(a, bb) && a.tablebase is None,
        a.tt.find(bb.hash) == Some(e),
        e.flag == TTFlag::Exact,
        e.depth >= depth,
        -90_000 <= e.score <= 90_000,
        !b.search_stopped,
    ensures
        r == (e.score, e.best_move),
{
    reveal(visits);
    let (x, y) = choose|x: BitBoardEngine<L>, y: BitBoardEngine<L>|
        #![trigger a.steps_onto(x, bb.hash), y.steps_back(b)]
        a.steps_onto(x, bb.hash) && looks(x, y, bb, depth, alpha, beta, r) && y.steps_back(b);
    reveal(looks);
    let v = choose|v: Look<L>|
        #![trigger x.wakes(v.awake)]
        x.wakes(v.awake) && looked(x, y, v, bb, depth, alpha, beta, r);
}

} // verus!
