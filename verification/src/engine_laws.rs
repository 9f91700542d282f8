//! How the engine's choices depend on what they are made from: what pruning, the
//! order of moves and learning do when a score, a depth or a side changes.
use vstd::prelude::*;
use crate::bitmove::BitMove;
use crate::board::Player;
use crate::engine::{BitBoardEngine, NoOutput, OutputLayer, SearchKnobs};
use crate::heuristic::EvalWeights;
use crate::ordering::{history_with, killers_with, pair_index};
use crate::search::{corrected_error, NodeFacts};
use crate::tt::{slot_for, TTCluster, TTEntry, TTFlag};
use crate::walk::{depth_kept, flag_of, narrowed_by, Progress};

verus! {

/// A node with another corrected evaluation.
pub open spec fn valued(n: NodeFacts, corrected: i32) -> NodeFacts {
    NodeFacts { corrected, ..n }
}

/// The node seen from the other side: the other player is to move, and evaluations
/// change their sign.
pub open spec fn turned(n: NodeFacts) -> NodeFacts {
    NodeFacts {
        maximizing: !n.maximizing,
        static_eval: (-n.static_eval) as i32,
        corrected: (-n.corrected) as i32,
        ..n
    }
}

/// Razoring treats both sides alike: a position and its counterpart with the sides
/// exchanged are razored in windows that are each other's mirror.
pub proof fn law_razoring_treats_sides_alike<L: OutputLayer>(e: BitBoardEngine<L>, n: NodeFacts, alpha: i32, beta: i32)
    requires
        n.ok(),
        alpha > i32::MIN,
        beta > i32::MIN,
    ensures
        e.razors(turned(n), (-beta) as i32, (-alpha) as i32) == e.razors(n, alpha, beta),
{
}

/// A position that is hopeless enough to be razored stays so when it gets worse for
/// the side to move, and with margins that are not negative its evaluation is
/// outside the window on the side to move's bad side.
pub proof fn law_razoring_is_for_the_hopeless<L: OutputLayer>(
    e: BitBoardEngine<L>,
    n: NodeFacts,
    worse: i32,
    alpha: i32,
    beta: i32,
)
    requires
        e.razors(n, alpha, beta),
        n.maximizing ==> worse <= n.corrected,
        !n.maximizing ==> worse >= n.corrected,
    ensures
        e.razors(valued(n, worse), alpha, beta),
        e.knobs.razor_base >= 0 && e.knobs.razor_slope >= 0 && n.maximizing ==> n.corrected < alpha,
        e.knobs.razor_base >= 0 && e.knobs.razor_slope >= 0 && !n.maximizing ==> n.corrected > beta,
        n.depth <= 3 && !n.endgame && !n.mid_turn,
{
    let k = e.knobs.razor_slope as int;
    let d = n.depth as int;
    assert(k >= 0 ==> k * d >= 0) by (nonlinear_arith)
        requires
            d >= 0,
    ;
}

/// Reverse futility treats both sides alike, with opposite scores.
pub proof fn law_reverse_futility_treats_sides_alike<L: OutputLayer>(
    e: BitBoardEngine<L>,
    n: NodeFacts,
    alpha: i32,
    beta: i32,
)
    requires
        n.ok(),
        alpha > i32::MIN,
        beta > i32::MIN,
    ensures
        ({
            let a = e.reverse_futility_score(n, alpha, beta);
            let b = e.reverse_futility_score(turned(n), (-beta) as i32, (-alpha) as i32);
            &&& a is Some <==> b is Some
            &&& a is Some ==> b->0 == -a->0
        }),
{
}

/// A node that reverse futility answers is good enough for the side to move: its
/// evaluation reaches the bound with the margin to spare, and the answer lies
/// between the two. A better evaluation is answered too, as long as it is no win.
pub proof fn law_reverse_futility_is_for_the_safe<L: OutputLayer>(
    e: BitBoardEngine<L>,
    n: NodeFacts,
    better: i32,
    alpha: i32,
    beta: i32,
)
    requires
        e.reverse_futility_score(n, alpha, beta) is Some,
        n.depth >= 1,
        -90_000 < better < 90_000,
        n.maximizing ==> better >= n.corrected,
        !n.maximizing ==> better <= n.corrected,
    ensures
        n.maximizing ==> beta <= e.reverse_futility_score(n, alpha, beta)->0 < n.corrected,
        !n.maximizing ==> alpha >= e.reverse_futility_score(n, alpha, beta)->0 > n.corrected,
        e.reverse_futility_score(valued(n, better), alpha, beta) is Some,
{
    let k = e.knobs.rfp_margin as int;
    let d = n.depth as int;
    assert(k * d > 0) by (nonlinear_arith)
        requires
            k > 0,
            d >= 1,
    ;
}

/// A null move is tried where the side to move stands well: what is tried at one
/// evaluation is tried at a better one, as long as it is no win. It is searched
/// less deep than the node, but to some depth.
pub proof fn law_null_moves_are_for_the_strong<L: OutputLayer>(
    e: BitBoardEngine<L>,
    n: NodeFacts,
    near_goal: bool,
    better: i32,
    alpha: i32,
    beta: i32,
)
    requires
        e.null_move_fits(n, near_goal, alpha, beta),
        -90_000 < better < 90_000,
        n.maximizing ==> better >= n.corrected,
        !n.maximizing ==> better <= n.corrected,
    ensures
        e.null_move_fits(valued(n, better), near_goal, alpha, beta),
        !near_goal && !n.endgame && !n.mid_turn && n.depth >= 4,
        1 <= e.null_depth_of(n, alpha, beta) < n.depth,
        e.null_depth_of(valued(n, better), alpha, beta) <= e.null_depth_of(n, alpha, beta),
{
}

/// Futility treats both sides alike.
#[verifier::spinoff_prover]
pub proof fn law_futility_treats_sides_alike<L: OutputLayer>(e: BitBoardEngine<L>, n: NodeFacts, alpha: i32, beta: i32)
    requires
        n.ok(),
        alpha > i32::MIN,
        beta > i32::MIN,
    ensures
        e.futile(turned(n), (-beta) as i32, (-alpha) as i32) == e.futile(n, alpha, beta),
{
}

/// What is futile stays futile when it gets worse for the side to move, as long as
/// it is no loss yet.
#[verifier::spinoff_prover]
pub proof fn law_futility_is_for_the_hopeless<L: OutputLayer>(
    e: BitBoardEngine<L>,
    n: NodeFacts,
    worse: i32,
    alpha: i32,
    beta: i32,
)
    requires
        e.futile(n, alpha, beta),
        -90_000 < worse < 90_000,
        n.maximizing ==> worse <= n.corrected,
        !n.maximizing ==> worse >= n.corrected,
    ensures
        e.futile(valued(n, worse), alpha, beta),
        n.depth <= 8 && !n.mid_turn,
{
}

/// Deeper nodes look at more moves before late ones are skipped, and without the
/// setting, in endgames and in the middle of a turn none are.
pub proof fn law_deeper_nodes_try_more<L: OutputLayer>(e: BitBoardEngine<L>, n: NodeFacts, m: NodeFacts)
    requires
        n.depth <= m.depth,
        n.endgame == m.endgame,
        n.mid_turn == m.mid_turn,
    ensures
        e.lmp_threshold_of(n) <= e.lmp_threshold_of(m),
        e.knobs.lmp_base <= 0 || n.endgame || n.mid_turn ==> e.lmp_threshold_of(n) == usize::MAX,
        e.knobs.lmp_base > 0 ==> e.lmp_threshold_of(n) > n.depth,
{
    let a = n.depth as int;
    let b = m.depth as int;
    assert(a * a <= b * b) by (nonlinear_arith)
        requires
            0 <= a <= b,
    ;
    assert(a * a >= a) by (nonlinear_arith)
        requires
            0 <= a,
    ;
    if a <= 6 {
        assert(a * a <= 36) by (nonlinear_arith)
            requires
                0 <= a <= 6,
        ;
    }
    if b <= 6 {
        assert(b * b <= 36) by (nonlinear_arith)
            requires
                0 <= b <= 6,
        ;
    }
}

/// Late moves are searched less deep but always to some depth, the first two of a
/// node and shallow nodes not less deep at all, and neither is a barrel move home.
pub proof fn law_reductions_are_for_late_moves<L: OutputLayer>(
    e: BitBoardEngine<L>,
    n: NodeFacts,
    m: BitMove,
    searched: int,
    p: Player,
)
    requires
        n.depth >= 1,
    ensures
        n.depth < 3 || searched < 2 ==> e.reduction_of(n, m, searched, p) == 0,
        n.depth >= 3 ==> 0 <= e.reduction_of(n, m, searched, p) <= n.depth - 2,
        m.from_code() != 63 && (if p == Player::White {
            m.to_sq() / 6 == 0
        } else {
            m.to_sq() / 6 == 5
        }) ==> e.reduction_of(n, m, searched, p) == 0,
{
}

/// A move that has cut off more often is never reduced more than one that has cut
/// off less often.
pub proof fn law_good_history_reduces_less<L: OutputLayer>(
    e: BitBoardEngine<L>,
    n: NodeFacts,
    good: BitMove,
    bad: BitMove,
    searched: int,
    p: Player,
)
    requires
        good.from_code() != 63,
        bad.from_code() != 63,
        e.knobs.lmr_hist_bad <= e.knobs.lmr_hist_good,
        e.history@[pair_index(good.from_code(), good.to_sq())] >= e.history@[pair_index(bad.from_code(), bad.to_sq())],
        if p == Player::White {
            bad.to_sq() / 6 != 0
        } else {
            bad.to_sq() / 6 != 5
        },
        n.depth >= 1,
    ensures
        e.reduction_of(n, good, searched, p) <= e.reduction_of(n, bad, searched, p),
{
}

/// Where a search found more for white than the evaluation said, the error that is
/// learned rises, where less it falls, and not beyond its bounds.
pub proof fn law_errors_are_learned(old_error: i32, best: i32, eval: i32, depth: u8)
    requires
        -8192 <= old_error <= 8192,
    ensures
        -8192 <= corrected_error(old_error, best, eval, depth) <= 8192,
        best >= eval ==> corrected_error(old_error, best, eval, depth) >= old_error,
        best <= eval ==> corrected_error(old_error, best, eval, depth) <= old_error,
        best > eval && depth > 0 && old_error < 8192 ==> corrected_error(old_error, best, eval, depth) > old_error,
        best < eval && depth > 0 && old_error > -8192 ==> corrected_error(old_error, best, eval, depth) < old_error,
{
    let x = best - eval;
    let d = depth as int;
    assert((x >= 0 ==> x * d >= 0) && (x <= 0 ==> x * d <= 0) && (x > 0 && d > 0 ==> x * d > 0) && (x < 0 && d > 0 ==> x * d
        < 0)) by (nonlinear_arith)
        requires
            d >= 0,
    ;
}

/// A barrel move that cut off gains history, the more the deeper the search, and no
/// other move's changes.
pub proof fn law_cutoffs_gain_history(v: Seq<i32>, m: BitMove, d: int, e: int, i: int)
    requires
        0 <= d <= e,
        !m.places_barrel(),
        0 <= m.from_code() < 36,
        0 <= m.to_sq() < 36,
        v.len() == 1296,
        forall|k: int| 0 <= k < 1296 ==> 0 <= #[trigger] v[k] <= 10_000,
        0 <= i < 1296,
        e <= 255,
    ensures
        i == 36 * m.from_code() + m.to_sq() ==> v[i] <= history_with(v, m, d)[i] <= history_with(v, m, e)[i] <= 10_000,
        i == 36 * m.from_code() + m.to_sq() && d > 0 && v[i] < 10_000 ==> history_with(v, m, d)[i] > v[i],
        i != 36 * m.from_code() + m.to_sq() ==> history_with(v, m, d)[i] == v[i],
{
    assert(d * d <= e * e && d * d >= 0 && (d > 0 ==> d * d > 0)) by (nonlinear_arith)
        requires
            0 <= d <= e,
    ;
    assert(e * e <= 65_025) by (nonlinear_arith)
        requires
            0 <= e <= 255,
    ;
}

/// After a move cut off at a depth it is the first killer there, and the one that
/// was first before is the second.
pub proof fn law_killers_are_the_last_to_cut_off(
    v: Seq<(Option<BitMove>, Option<BitMove>)>,
    m: BitMove,
    depth: int,
    other: int,
)
    requires
        v.len() == 32,
        0 <= depth < 32,
        0 <= other < 32,
    ensures
        killers_with(v, m, depth)[depth].0 is Some,
        killers_with(v, m, depth)[depth].0->0.packed == m.packed,
        v[depth].0 is None || v[depth].0->0.packed != m.packed ==> killers_with(v, m, depth)[depth].1 == v[depth].0,
        other != depth ==> killers_with(v, m, depth)[other] == v[other],
{
}

/// Of two walks that learning says the same of, the one that gains more rows towards
/// the goal is tried first, unless the other is home and it is not.
#[verifier::spinoff_prover]
pub proof fn law_walks_ahead_come_first<L: OutputLayer>(
    e: BitBoardEngine<L>,
    x: BitMove,
    y: BitMove,
    depth: int,
)
    requires
        0 <= x.from_code() < 36,
        0 <= y.from_code() < 36,
        0 <= x.to_sq() < 36,
        0 <= y.to_sq() < 36,
        !x.places_barrel(),
        !y.places_barrel(),
        x.len() == y.len(),
        x.pail_code() == y.pail_code(),
        e.killer_score(x, depth) == e.killer_score(y, depth),
        e.history_score(x) == e.history_score(y),
    ensures
        x.from_code() / 6 - x.to_sq() / 6 > y.from_code() / 6 - y.to_sq() / 6 && y.to_sq() / 6 != 0 ==> e.move_score(
            x,
            Player::White,
            depth,
            None,
        ) > e.move_score(y, Player::White, depth, None),
        x.to_sq() / 6 - x.from_code() / 6 > y.to_sq() / 6 - y.from_code() / 6 && y.to_sq() / 6 != 5 ==> e.move_score(
            x,
            Player::Black,
            depth,
            None,
        ) > e.move_score(y, Player::Black, depth, None),
        x.to_sq() / 6 == 0 && y.to_sq() / 6 != 0 && x.from_code() / 6 == y.from_code() / 6 ==> e.move_score(
            x,
            Player::White,
            depth,
            None,
        ) > e.move_score(y, Player::White, depth, None),
{
}

/// A killer is tried before the same move without being one, and a move with more
/// history not after the same with less.
pub proof fn law_killers_come_early<L: OutputLayer>(
    e: BitBoardEngine<L>,
    f: BitBoardEngine<L>,
    m: BitMove,
    p: Player,
    depth: int,
)
    requires
        0 <= depth < 32,
        e.history == f.history,
        e.cont_history == f.cont_history,
        e.prev_move == f.prev_move,
        e.killer_moves@[depth].0 is Some,
        e.killer_moves@[depth].0->0.packed == m.packed,
        f.killer_moves@[depth].0 is None,
        f.killer_moves@[depth].1 is None,
    ensures
        e.move_score(m, p, depth, None) > f.move_score(m, p, depth, None),
{
}

/// The table's move has the same standing at every depth, for either side and
/// whatever was learned, and it is a high one.
pub proof fn law_the_table_move_stands_out<L: OutputLayer>(
    e: BitBoardEngine<L>,
    f: BitBoardEngine<L>,
    m: BitMove,
    p: Player,
    q: Player,
    depth: int,
    other: int,
)
    ensures
        e.move_score(m, p, depth, Some(m)) == f.move_score(m, q, other, Some(m)),
        e.move_score(m, p, depth, Some(m)) > 9_000,
{
}

/// An entry goes into a cluster in the place of one for the same hash, or into an
/// empty place if there is one; else the entry that has to leave is not deeper than
/// another of the same age, and not younger than another of the same depth.
pub proof fn law_shallow_and_old_entries_leave(c: TTCluster, hash: u64, generation: u8, k: int)
    requires
        0 <= k < 3,
    ensures
        ({
            let s = slot_for(c, hash, generation);
            let e = c.entries@;
            &&& 0 <= s < 3
            &&& (exists|j: int| 0 <= j < 3 && #[trigger] e[j] is None) ==> e[s] is None || e[s]->0.hash == hash
            &&& e[s] is Some && e[s]->0.hash != hash && e[k] is Some ==> {
                &&& e[k]->0.generation == e[s]->0.generation ==> e[s]->0.depth <= e[k]->0.depth
                &&& e[k]->0.depth == e[s]->0.depth && e[k]->0.generation == generation && e[s]->0.generation <= generation
                    ==> e[s]->0.generation <= e[k]->0.generation
            }
        }),
{
    let s = slot_for(c, hash, generation);
    let e = c.entries@;
    assert(k == 0 || k == 1 || k == 2);
    if exists|j: int| 0 <= j < 3 && #[trigger] e[j] is None {
        let j = choose|j: int| 0 <= j < 3 && #[trigger] e[j] is None;
        assert(j == 0 || j == 1 || j == 2);
    }
}

/// An entry that is not deep enough changes nothing. One that is never widens the
/// window: a lower bound only raises its lower end, an upper bound only lowers its
/// upper end, and it is the answer if it is exact or leaves nothing of the window.
pub proof fn law_entries_narrow_the_window(e: TTEntry, depth: int, ply: int, alpha: i32, beta: i32)
    ensures
        ({
            let (lo, hi, known) = narrowed_by(Some(e), depth, ply, alpha, beta);
            &&& e.depth < depth ==> lo == alpha && hi == beta && !known
            &&& alpha <= lo && hi <= beta
            &&& e.flag == TTFlag::LowerBound ==> hi == beta
            &&& e.flag == TTFlag::UpperBound ==> lo == alpha
            &&& e.flag == TTFlag::Exact && e.depth >= depth ==> known
            &&& e.flag != TTFlag::Exact && e.depth >= depth ==> (known <==> lo >= hi)
        }),
        narrowed_by(None, depth, ply, alpha, beta) == (alpha, beta, false),
        depth_kept(Some(e), depth, 0) == depth,
{
}

/// A score that never got above the first lower end is stored as an upper bound,
/// one that reached the upper end as a lower bound, and any other as exact.
pub proof fn law_stored_bounds(best: i32, alpha: i32, beta: i32)
    requires
        alpha < beta,
    ensures
        best <= alpha <==> flag_of(best, alpha, beta) == TTFlag::UpperBound,
        best >= beta <==> flag_of(best, alpha, beta) == TTFlag::LowerBound,
        alpha < best < beta <==> flag_of(best, alpha, beta) == TTFlag::Exact,
{
}

/// A tried move replaces the best one only if it is better for the side to move, a
/// better one narrows the window, and nothing else does.
pub proof fn law_better_scores_are_taken(p: Progress, maximizing: bool, m: BitMove, score: i32)
    requires
        p.alpha < p.beta,
    ensures
        ({
            let q = p.took(maximizing, m, score);
            &&& maximizing ==> q.best >= p.best && q.best >= score && (q.best == score || q.best == p.best) && q.alpha
                >= p.alpha && q.alpha >= score && q.beta == p.beta
            &&& !maximizing ==> q.best <= p.best && q.best <= score && (q.best == score || q.best == p.best) && q.beta
                <= p.beta && q.beta <= score && q.alpha == p.alpha
            &&& q.best != p.best ==> q.best_move == Some(m)
            &&& q.best == p.best ==> q.best_move == p.best_move
            &&& maximizing ==> (q.cut <==> score >= p.beta)
            &&& !maximizing ==> (q.cut <==> score <= p.alpha)
        }),
{
}

/// The settings of a new engine: barrels home, progress, threats, passed barrels,
/// mobility, jumps and the race count for a side, and pruning, reductions and
/// aspiration are on.
pub proof fn law_tuned_settings(e: BitBoardEngine<NoOutput>)
    requires
        call_ensures(BitBoardEngine::<NoOutput>::new, (), e),
    ensures
        e.weights == (EvalWeights {
            progress: 77,
            center_pail: 15,
            blocking: 19,
            scored: 700,
            threat: 144,
            threat2: 101,
            adj_blocking: 0,
            mobility: 13,
            passed: 80,
            trapped: 1,
            score_accel: (-3) as i32,
            eg_threat: (-1) as i32,
            jump: 63,
            race: 80,
        }),
        e.knobs == (SearchKnobs {
            rfp_margin: 63,
            lmp_base: 7,
            qs_mode: 2,
            asp_delta: 29,
            razor_base: 198,
            razor_slope: 137,
            nmp_margin: 49,
            nmp_boost_margin: 161,
            fut_scale: 104,
            lmr_div: 101,
            lmr_hist_good: 877,
            lmr_hist_bad: (-559) as i32,
            iir_depth: 3,
        }),
        e.contempt == 0,
        e.no_progress_limit == 60,
        e.nnue is None,
        e.tablebase is None,
{
}

} // verus!
