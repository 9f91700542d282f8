//! By how much a position must be out of reach before its moves are not searched in
//! full.
use vstd::prelude::*;
use crate::bitboard::BitBoard;
use crate::bitmove::BitMove;
use crate::board::Player;
use crate::engine::{BitBoardEngine, OutputLayer};
use crate::ordering::pair_index;
use crate::search::{NodeFacts, FUTILITY_MARGINS};
use crate::tt::{TTEntry, TTFlag};
use crate::walk::{depth_kept, narrowed_by};

verus! {

/// How far the evaluation of a node stays behind what its side to move needs.
pub open spec fn behind(n: NodeFacts, alpha: i32, beta: i32) -> int {
    if n.maximizing {
        alpha - n.corrected
    } else {
        n.corrected - beta
    }
}

/// How far it is ahead of what the other side can bear.
pub open spec fn ahead(n: NodeFacts, alpha: i32, beta: i32) -> int {
    if n.maximizing {
        n.corrected - beta
    } else {
        alpha - n.corrected
    }
}

/// Up to depth three, with more than three barrels to bring home and no barrel owed,
/// a node is razored exactly if it is behind by more than a base and a slope for
/// every ply.
pub proof fn law_razor_margins<L: OutputLayer>(e: BitBoardEngine<L>, n: NodeFacts, alpha: i32, beta: i32)
    requires
        !n.endgame,
        !n.mid_turn,
    ensures
        n.depth <= 3 ==> (e.razors(n, alpha, beta) <==> behind(n, alpha, beta) > e.knobs.razor_base + e.knobs.razor_slope
            * n.depth),
        n.depth > 3 ==> !e.razors(n, alpha, beta),
{
}

/// Up to depth eight a calm node is answered at once exactly if it is ahead by a
/// margin for every ply; the answer is its evaluation less that.
pub proof fn law_reverse_futility_margins<L: OutputLayer>(e: BitBoardEngine<L>, n: NodeFacts, alpha: i32, beta: i32)
    requires
        !n.endgame,
        !n.mid_turn,
        e.knobs.rfp_margin > 0,
        -90_000 < n.corrected < 90_000,
        -90_000 < alpha < 90_000,
        -90_000 < beta < 90_000,
    ensures
        ({
            let r = e.reverse_futility_score(n, alpha, beta);
            let margin = e.knobs.rfp_margin * n.depth;
            &&& n.depth <= 8 ==> (r is Some <==> ahead(n, alpha, beta) >= margin)
            &&& r is Some && n.maximizing ==> r->0 == n.corrected - margin
            &&& r is Some && !n.maximizing ==> r->0 == n.corrected + margin
            &&& n.depth > 8 ==> r is None
        }),
{
}

/// From depth four on a calm node with no barrel near the goal passes exactly if it is
/// behind the bound by no more than a margin. The reply is searched three plies less
/// deep, from depth six on four and from eight on five, and one more if it is ahead
/// by another margin, but never less than one ply.
pub proof fn law_null_move_margins<L: OutputLayer>(e: BitBoardEngine<L>, n: NodeFacts, alpha: i32, beta: i32)
    requires
        !n.endgame,
        !n.mid_turn,
        n.depth >= 4,
        -90_000 < n.corrected < 90_000,
        -90_000 < beta < 90_000,
    ensures
        e.null_move_fits(n, false, alpha, beta) <==> ahead(n, alpha, beta) >= -e.knobs.nmp_margin,
        !e.null_move_fits(n, true, alpha, beta),
        ({
            let less: int = (if n.depth < 6 {
                3int
            } else if n.depth < 8 {
                4
            } else {
                5
            }) + (if ahead(n, alpha, beta) >= e.knobs.nmp_boost_margin {
                1int
            } else {
                0
            });
            e.null_depth_of(n, alpha, beta) == if n.depth - less > 1 {
                n.depth - less
            } else {
                1
            }
        }),
{
}

/// With the margins taken as they are, a node of depth one is futile if it is behind
/// by more than 80, of depth two by more than 160, then 250, 350, 450, 600, 750 and
/// 950, and near the end of the game by half as much.
pub proof fn law_futility_margins<L: OutputLayer>(e: BitBoardEngine<L>, n: NodeFacts, alpha: i32, beta: i32)
    requires
        !n.mid_turn,
        e.knobs.fut_scale == 100,
        1 <= n.depth <= 8,
        -90_000 < n.corrected < 90_000,
    ensures
        ({
            let margin: int = if n.depth == 1 {
                80
            } else if n.depth == 2 {
                160
            } else if n.depth == 3 {
                250
            } else if n.depth == 4 {
                350
            } else if n.depth == 5 {
                450
            } else if n.depth == 6 {
                600
            } else if n.depth == 7 {
                750
            } else {
                950
            };
            e.futile(n, alpha, beta) <==> behind(n, alpha, beta) > if n.endgame {
                margin / 2
            } else {
                margin
            }
        }),
{
    assert(FUTILITY_MARGINS@[1] == 80 && FUTILITY_MARGINS@[2] == 160 && FUTILITY_MARGINS@[3] == 250
        && FUTILITY_MARGINS@[4] == 350 && FUTILITY_MARGINS@[5] == 450 && FUTILITY_MARGINS@[6] == 600
        && FUTILITY_MARGINS@[7] == 750 && FUTILITY_MARGINS@[8] == 950);
    let d = n.depth;
    assert(d == 1 || d == 2 || d == 3 || d == 4 || d == 5 || d == 6 || d == 7 || d == 8);
}

/// The number of moves that are tried before the rest is left out grows by an odd
/// number with each ply: one, three, five and so on, up to depth six.
pub proof fn law_more_moves_with_depth<L: OutputLayer>(e: BitBoardEngine<L>, n: NodeFacts, m: NodeFacts)
    requires
        e.knobs.lmp_base > 0,
        !n.endgame && !n.mid_turn,
        !m.endgame && !m.mid_turn,
        m.depth == n.depth + 1,
    ensures
        n.depth == 0 ==> e.lmp_threshold_of(n) == e.knobs.lmp_base,
        m.depth <= 6 ==> e.lmp_threshold_of(m) - e.lmp_threshold_of(n) == 2 * n.depth + 1,
        n.depth > 6 ==> e.lmp_threshold_of(n) == usize::MAX,
{
    let d = n.depth as int;
    assert((d + 1) * (d + 1) == d * d + 2 * d + 1) by (nonlinear_arith);
    assert(d == 0 ==> d * d == 0) by (nonlinear_arith);
}

/// A late move is searched less deep by what the table says, one ply less of it if the
/// move often cut off, one more if it hardly did, and one less near the end of the
/// game; at least one ply below the node is kept.
pub proof fn law_reductions_follow_the_table<L: OutputLayer>(e: BitBoardEngine<L>, n: NodeFacts, m: BitMove, searched: int, p: Player)
    requires
        3 <= n.depth <= 31,
        2 <= searched <= 63,
        m.from_code() != 63,
        p == Player::White ==> m.to_sq() / 6 != 0,
        p == Player::Black ==> m.to_sq() / 6 != 5,
        e.knobs.lmr_hist_bad <= e.knobs.lmr_hist_good,
        1 <= e.lmr_table@[n.depth as int]@[searched] < 255,
    ensures
        ({
            let h = e.history@[36 * m.from_code() + m.to_sq()];
            let base = e.lmr_table@[n.depth as int]@[searched] as int;
            let by_history = base - (if h > e.knobs.lmr_hist_good {
                1int
            } else {
                0
            }) + (if h < e.knobs.lmr_hist_bad {
                1int
            } else {
                0
            });
            let late = if n.endgame && by_history > 0 {
                by_history - 1
            } else {
                by_history
            };
            e.reduction_of(n, m, searched, p) == if late < n.depth - 2 {
                late
            } else {
                n.depth - 2
            }
        }),
{
    assert(pair_index(m.from_code(), m.to_sq() as int) == 36 * m.from_code() + m.to_sq());
}

/// Below the root a quiet barrel move that does not come home is left out, while the
/// node is not known as lost, exactly if enough moves were searched or, where the node
/// is futile, at least one.
pub proof fn law_quiet_moves_are_left_out<L: OutputLayer>(
    e: BitBoardEngine<L>,
    n: NodeFacts,
    m: BitMove,
    searched: int,
    best: i32,
    futile: bool,
    threshold: int,
    p: Player,
)
    requires
        n.ply > 0,
        !m.pail_only(),
        p == Player::White ==> m.to_sq() / 6 != 0,
        p == Player::Black ==> m.to_sq() / 6 != 5,
        -90_000 <= best <= 90_000,
    ensures
        e.skips(n, m, searched, best, futile, threshold, p) <==> searched >= threshold || futile && searched >= 1,
{
}

/// A node is of white if white is to move, of the end of the game if at most three
/// barrels of both sides are not home, and its evaluation is corrected by a
/// two-hundred-and-fifty-sixth of the error learned, the fraction dropped.
#[verifier::spinoff_prover]
pub proof fn law_nodes_are_judged<L: OutputLayer>(e: BitBoardEngine<L>, f: BitBoardEngine<L>, b: BitBoard, depth: int, n: NodeFacts)
    requires
        e.judges(f, b, depth, n),
        b.white_scored <= 4,
        b.black_scored <= 4,
    ensures
        n.depth == depth,
        n.maximizing <==> b.current_player == Player::White,
        n.endgame <==> b.white_scored + b.black_scored >= 5,
        n.mid_turn == b.awaiting_barrel,
        ({
            let error = e.correction_history@[b.hash as int % 16384] as int;
            let by = n.corrected - n.static_eval;
            &&& -256 < error - 256 * by < 256
            &&& error >= 0 ==> 0 <= 256 * by <= error
            &&& error <= 0 ==> error <= 256 * by <= 0
        }),
{
    assert(b@.white_scored == b.white_scored && b@.black_scored == b.black_scored);
}

/// An error is learned from depth three on where neither the score nor the evaluation
/// is a win, by the difference times the depth, and only of the position's own slot.
#[verifier::spinoff_prover]
pub proof fn law_errors_are_learned_deep<L: OutputLayer>(
    e: BitBoardEngine<L>,
    f: BitBoardEngine<L>,
    hash: u64,
    best: i32,
    n: NodeFacts,
    i: int,
)
    requires
        e.learns_error(f, hash, best, n),
        e.correction_history@.len() == 16384,
        0 <= i < 16384,
    ensures
        i != hash as int % 16384 ==> f.correction_history@[i] == e.correction_history@[i],
        n.depth < 3 || !(-90_000 < best < 90_000) ==> f == e,
        n.depth >= 3 && -90_000 < best < 90_000 && -90_000 < n.static_eval < 90_000 && i == hash as int % 16384 ==> {
            let learned = e.correction_history@[i] + (best - n.static_eval) * n.depth;
            &&& -8192 <= learned <= 8192 ==> f.correction_history@[i] == learned
            &&& learned > 8192 ==> f.correction_history@[i] == 8192
            &&& learned < -8192 ==> f.correction_history@[i] == -8192
        },
{
}

/// A lower bound that is deep enough lifts the window to its score, an upper bound
/// lowers it; scores of wins count from the position. A node that the table does not
/// know is searched one ply less deep from a depth on.
pub proof fn law_bounds_move_the_window(x: TTEntry, depth: int, ply: int, alpha: i32, beta: i32, iir_depth: i32)
    requires
        x.depth >= depth,
        0 <= ply < 1_000,
        -100_000 <= x.score <= 100_000,
    ensures
        ({
            let score = if x.score > 90_000 {
                x.score - ply
            } else if x.score < -90_000 {
                x.score + ply
            } else {
                x.score as int
            };
            let (lo, hi, known) = narrowed_by(Some(x), depth, ply, alpha, beta);
            &&& x.flag == TTFlag::LowerBound ==> lo == if score > alpha {
                score
            } else {
                alpha as int
            }
            &&& x.flag == TTFlag::UpperBound ==> hi == if score < beta {
                score
            } else {
                beta as int
            }
            &&& x.flag == TTFlag::Exact ==> lo == alpha && hi == beta && known
        }),
        depth_kept(Some(x), depth, iir_depth) == depth,
        depth > 0 && depth >= iir_depth ==> depth_kept(None, depth, iir_depth) == depth - 1,
        depth < iir_depth ==> depth_kept(None, depth, iir_depth) == depth,
{
}

} // verus!
