//! The value of quiescence: the minimax value over tactical moves, in which the
//! side to move may always stop and take the evaluation.
use vstd::prelude::*;
use crate::bitboard::BitBoard;
use crate::bitmove::BitMove;
use crate::board::Player;
use crate::engine_state::tells_eval;
use crate::heuristic::{goal_dist, heuristic_of, EvalWeights};
use crate::node::{is_legal, win_score_of};

verus! {

/// The deepest level of quiescence.
pub open spec fn qs_cap(qs_mode: i32) -> int {
    if qs_mode == 1 {
        6
    } else {
        4
    }
}

/// A legal barrel move to the goal row, or in mode 1 to the row before it.
#[verifier::opaque]
pub open spec fn is_tactical(bb: BitBoard, m: BitMove, qs_mode: i32) -> bool {
    &&& is_legal(bb, m)
    &&& !m.pail_only()
    &&& goal_dist(bb.current_player, m.to_sq()) == 0 || (qs_mode == 1 && goal_dist(bb.current_player, m.to_sq()) == 1)
}

/// A score is for the side to move at least as good as another.
pub open spec fn no_worse(white: bool, a: int, b: int) -> bool {
    if white {
        a >= b
    } else {
        a <= b
    }
}

/// What quiescence is judged by: the weights, the mode, and the distance of
/// its first position from the root.
pub struct QuietRules {
    pub weights: EvalWeights,
    pub qs_mode: i32,
    pub ply: int,
}

/// `v` is the best for the side to move of the evaluation `sp` and the values
/// `f` of the positions behind the tactical moves.
pub open spec fn is_best(bb: BitBoard, qs_mode: i32, sp: int, f: spec_fn(BitBoard) -> int, v: int) -> bool {
    let white = bb.current_player == Player::White;
    &&& no_worse(white, v, sp)
    &&& forall|m: BitMove| #[trigger] is_tactical(bb, m, qs_mode) ==> no_worse(white, v, f(bb.played(m)))
    &&& v == sp || exists|m: BitMove| #[trigger] is_tactical(bb, m, qs_mode) && v == f(bb.played(m))
}

/// The best for the side to move.
pub open spec fn best_of(bb: BitBoard, qs_mode: i32, sp: int, f: spec_fn(BitBoard) -> int) -> int {
    choose|v: int| is_best(bb, qs_mode, sp, f, v)
}

/// The value of a position where the next level has the values `next`: a
/// finished game scores by its distance, the last level by the evaluation, and
/// any other position by the best of the evaluation and the values behind the
/// tactical moves.
pub open spec fn level_value(q: QuietRules, bb: BitBoard, d: int, next: spec_fn(BitBoard) -> int) -> int {
    match bb@.winner() {
        Some(p) => win_score_of(p, q.ply + d),
        None => if d >= qs_cap(q.qs_mode) {
            heuristic_of(q.weights, bb)
        } else {
            best_of(bb, q.qs_mode, heuristic_of(q.weights, bb), next)
        },
    }
}

/// The values of positions at level `d` of quiescence.
pub open spec fn level_values(q: QuietRules, d: int) -> spec_fn(BitBoard) -> int
    decreases 7 - d,
{
    let next: spec_fn(BitBoard) -> int = if d >= 6 {
        |bb: BitBoard| 0int
    } else {
        level_values(q, d + 1)
    };
    |bb: BitBoard| level_value(q, bb, d, next)
}

/// The value of a position at a level of quiescence.
#[verifier::opaque]
pub open spec fn quiet_value(q: QuietRules, bb: BitBoard, d: int) -> int {
    level_values(q, d)(bb)
}

/// The positions from which every position within `n` moves is told in its
/// evaluation by its hash.
pub open spec fn known_boards(w: EvalWeights, n: nat) -> spec_fn(BitBoard) -> bool
    decreases n,
{
    let near: spec_fn(BitBoard) -> bool = if n == 0 {
        |bb: BitBoard| true
    } else {
        known_boards(w, (n - 1) as nat)
    };
    |bb: BitBoard| tells_eval(w, bb) && forall|m: BitMove| #[trigger] is_legal(bb, m) ==> near(bb.played(m))
}

/// The hash tells the evaluation of every position within `n` moves.
#[verifier::opaque]
pub open spec fn known_by_hash(w: EvalWeights, bb: BitBoard, n: int) -> bool {
    n >= 0 && known_boards(w, n as nat)(bb)
}

pub proof fn lemma_known_parts(w: EvalWeights, bb: BitBoard, n: int)
    requires
        known_by_hash(w, bb, n),
    ensures
        tells_eval(w, bb),
        n > 0 ==> forall|m: BitMove| #[trigger] is_legal(bb, m) ==> known_by_hash(w, bb.played(m), n - 1),
{
    reveal(known_by_hash);
    if n > 0 {
        let near = known_boards(w, (n - 1) as nat);
        assert forall|m: BitMove| #[trigger] is_legal(bb, m) implies known_by_hash(w, bb.played(m), n - 1) by {
            assert(near(bb.played(m)));
        }
    }
}

/// What holds within more moves holds within fewer.
pub proof fn lemma_known_less(w: EvalWeights, bb: BitBoard, n: int, k: int)
    requires
        known_by_hash(w, bb, n),
        0 <= k <= n,
    ensures
        known_by_hash(w, bb, k),
    decreases k,
{
    lemma_known_parts(w, bb, n);
    if k > 0 {
        assert forall|m: BitMove| #[trigger] is_legal(bb, m) implies known_by_hash(w, bb.played(m), k - 1) by {
            lemma_known_less(w, bb.played(m), n - 1, k - 1);
        }
        let near = known_boards(w, (k - 1) as nat);
        assert forall|m: BitMove| #[trigger] is_legal(bb, m) implies near(bb.played(m)) by {
            reveal(known_by_hash);
        }
    }
    reveal(known_by_hash);
}

/// There is one best.
pub proof fn law_best_unique(bb: BitBoard, qs_mode: i32, sp: int, f: spec_fn(BitBoard) -> int, u: int, v: int)
    requires
        is_best(bb, qs_mode, sp, f, u),
        is_best(bb, qs_mode, sp, f, v),
    ensures
        u == v,
{
}

/// Moves with the same word lead to the same board.
proof fn lemma_same_word(bb: BitBoard, a: BitMove, b: BitMove)
    requires
        a.packed == b.packed,
    ensures
        bb.played(a) == bb.played(b),
{
    reveal(BitBoard::played);
}

/// The best among the tactical moves whose word is below `n`.
proof fn lemma_best_below(bb: BitBoard, qs_mode: i32, sp: int, f: spec_fn(BitBoard) -> int, n: int) -> (v: int)
    requires
        0 <= n,
    ensures
        no_worse(bb.current_player == Player::White, v, sp),
        forall|m: BitMove| #[trigger] is_tactical(bb, m, qs_mode) && m.packed < n ==> no_worse(
            bb.current_player == Player::White,
            v,
            f(bb.played(m)),
        ),
        v == sp || exists|m: BitMove| #[trigger] is_tactical(bb, m, qs_mode) && v == f(bb.played(m)),
    decreases n,
{
    let white = bb.current_player == Player::White;
    if n == 0 {
        sp
    } else {
        let u = lemma_best_below(bb, qs_mode, sp, f, n - 1);
        if exists|m: BitMove| #[trigger]
            is_tactical(bb, m, qs_mode) && m.packed == n - 1 && !no_worse(white, u, f(bb.played(m))) {
            let m = choose|m: BitMove| #[trigger]
                is_tactical(bb, m, qs_mode) && m.packed == n - 1 && !no_worse(white, u, f(bb.played(m)));
            assert forall|k: BitMove| #[trigger] is_tactical(bb, k, qs_mode) && k.packed < n implies no_worse(
                white,
                f(bb.played(m)),
                f(bb.played(k)),
            ) by {
                if k.packed == n - 1 {
                    lemma_same_word(bb, k, m);
                }
            }
            f(bb.played(m))
        } else {
            u
        }
    }
}

/// There is a best, whatever the values behind the moves.
pub proof fn law_best_exists(bb: BitBoard, qs_mode: i32, sp: int, f: spec_fn(BitBoard) -> int)
    ensures
        is_best(bb, qs_mode, sp, f, best_of(bb, qs_mode, sp, f)),
{
    let v = lemma_best_below(bb, qs_mode, sp, f, 0x1_0000_0000);
    assert(is_best(bb, qs_mode, sp, f, v));
}

/// What the value of an inner position is made of.
pub proof fn lemma_quiet_parts(q: QuietRules, bb: BitBoard, d: int)
    requires
        bb@.winner() is None,
        0 <= d < qs_cap(q.qs_mode),
    ensures
        no_worse(bb.current_player == Player::White, quiet_value(q, bb, d), heuristic_of(q.weights, bb)),
        forall|m: BitMove| #[trigger]
            is_tactical(bb, m, q.qs_mode) ==> no_worse(
                bb.current_player == Player::White,
                quiet_value(q, bb, d),
                quiet_value(q, bb.played(m), d + 1),
            ),
        quiet_value(q, bb, d) == heuristic_of(q.weights, bb) || exists|m: BitMove| #[trigger]
            is_tactical(bb, m, q.qs_mode) && quiet_value(q, bb, d) == quiet_value(q, bb.played(m), d + 1),
{
    reveal(quiet_value);
    law_best_exists(bb, q.qs_mode, heuristic_of(q.weights, bb), level_values(q, d + 1));
}

/// The value of a finished game, and of the last level.
pub proof fn lemma_quiet_ends(q: QuietRules, bb: BitBoard, d: int)
    ensures
        bb@.winner() matches Some(p) ==> quiet_value(q, bb, d) == win_score_of(p, q.ply + d),
        bb@.winner() is None && d >= qs_cap(q.qs_mode) ==> quiet_value(q, bb, d) == heuristic_of(q.weights, bb),
{
    reveal(quiet_value);
}

/// What a search with a window says of a value: inside the window it is the
/// value, at or above the upper edge the value is at least as high, and at or
/// below the lower edge at most as high.
pub open spec fn bounds(r: int, v: int, alpha: int, beta: int) -> bool {
    &&& r >= beta ==> v >= r
    &&& r <= alpha ==> v <= r
    &&& alpha < r < beta ==> v == r
}

pub open spec fn better_of(white: bool, a: int, b: int) -> int {
    if no_worse(white, a, b) {
        a
    } else {
        b
    }
}

/// One more move of white, searched with the lower edge raised to the best so
/// far, keeps the bounds.
pub proof fn lemma_raise(alpha_in: int, beta: int, best: int, ext: int, alpha: int, s: int, c: int)
    requires
        alpha_in < beta,
        alpha == if best > alpha_in {
            best
        } else {
            alpha_in
        },
        alpha < beta,
        bounds(best, ext, alpha_in, beta),
        bounds(s, c, alpha, beta),
    ensures
        bounds(better_of(true, best, s), better_of(true, ext, c), alpha_in, beta),
{
}

/// One more move of black, searched with the upper edge lowered to no less than
/// the best so far, keeps the bounds.
pub proof fn lemma_lower(alpha: int, beta_in: int, best: int, ext: int, beta: int, s: int, c: int)
    requires
        alpha < beta_in,
        beta == beta_in || beta == if best < beta_in {
            best
        } else {
            beta_in
        },
        alpha < beta,
        alpha < best,
        bounds(best, ext, alpha, beta_in),
        bounds(s, c, alpha, beta),
    ensures
        bounds(better_of(false, best, s), better_of(false, ext, c), alpha, beta_in),
{
}

} // verus!
