//! Wins one move away: what a search one move deep makes of them.
use vstd::prelude::*;
use crate::bitboard::BitBoard;
use crate::bitmove::BitMove;
use crate::board::Player;
use crate::engine::{BitBoardEngine, OutputLayer, WIN_SCORE};
use crate::engine_state::MILD_EVAL;
use crate::node::{is_legal, win_score_of};
use crate::rules::goal_row_of;
use crate::squares::row_of;

verus! {

/// No score of a position at distance `far` tells of a win before it, and none
/// of an unfinished one of a win at it; a score at or below `alpha` may be too
/// high, and one at or above `beta` too low.
pub open spec fn in_reach(v: int, far: int, finished: bool, alpha: int, beta: int) -> bool {
    let top = WIN_SCORE - far - if finished {
        0int
    } else {
        1
    };
    &&& v > alpha ==> v <= top
    &&& v < beta ==> v >= -top
}

/// The score of a position one move away, at distance `far`: a draw's is mild, a
/// finished game's tells the winner, and any other is in reach.
#[verifier::opaque]
pub open spec fn fairly(c: BitBoard, drawn: bool, v: int, far: int, alpha: int, beta: int) -> bool {
    if drawn {
        -MILD_EVAL <= v <= MILD_EVAL
    } else {
        match c@.winner() {
            Some(w) => v == win_score_of(w, far),
            None => in_reach(v, far, false, alpha, beta),
        }
    }
}

impl<L: OutputLayer> BitBoardEngine<L> {
    /// The position is a draw by the rules behind the path.
    pub open spec fn drawn_at(&self, path: Seq<u64>, c: BitBoard) -> bool {
        self.no_progress_limit > 0 && c.halfmove_clock >= self.no_progress_limit || path.contains(c.hash)
            || self.game_history@.contains(c.hash)
    }

    /// The move brings the last barrel home, and the position is no draw.
    pub open spec fn wins_now(&self, path: Seq<u64>, bb: BitBoard, m: BitMove) -> bool {
        &&& is_legal(bb, m)
        &&& !m.pail_only()
        &&& row_of(m.to_sq()) == goal_row_of(bb.current_player)
        &&& bb.played(m)@.winner() == Some(bb.current_player)
        &&& !self.drawn_at(path, bb.played(m))
    }

    /// Every move leads to a draw by the rules.
    #[verifier::opaque]
    pub open spec fn only_draws(&self, path: Seq<u64>, bb: BitBoard) -> bool {
        forall|m: BitMove| #[trigger] is_legal(bb, m) ==> self.drawn_at(path, bb.played(m))
    }
}

/// The best of the first `i` moves: no better than a win at distance `far`, only
/// a winning move that good, and as good as that if one of them wins.
#[verifier::opaque]
pub open spec fn quick<L: OutputLayer>(
    e: BitBoardEngine<L>,
    bb: BitBoard,
    moves: Seq<BitMove>,
    i: int,
    best: int,
    m: Option<BitMove>,
    far: int,
) -> bool {
    let p = bb.current_player;
    let top = win_score_of(p, far);
    &&& m is Some ==> (if p == Player::White {
        best <= top
    } else {
        best >= top
    }) && (best == top ==> bb.played(m->0)@.winner() == Some(p))
    &&& forall|j: int|
        0 <= j < i && e.wins_now(e.path_hashes@, bb, #[trigger] moves[j]) ==> m is Some && if p == Player::White {
            best >= top
        } else {
            best <= top
        }
}

pub proof fn lemma_quick_start<L: OutputLayer>(
    e: BitBoardEngine<L>,
    bb: BitBoard,
    moves: Seq<BitMove>,
    best: int,
    far: int,
)
    ensures
        quick(e, bb, moves, 0, best, None, far),
{
    reveal(quick);
}

/// A move that does not win may be skipped.
pub proof fn lemma_quick_skip<L: OutputLayer>(
    e: BitBoardEngine<L>,
    bb: BitBoard,
    moves: Seq<BitMove>,
    i: int,
    best: int,
    m: Option<BitMove>,
    far: int,
)
    requires
        quick(e, bb, moves, i, best, m, far),
        !e.wins_now(e.path_hashes@, bb, moves[i]),
    ensures
        quick(e, bb, moves, i + 1, best, m, far),
{
    reveal(quick);
}

/// One more move, searched in the window that the best score has narrowed.
pub proof fn lemma_quick_step<L: OutputLayer>(
    e: BitBoardEngine<L>,
    bb: BitBoard,
    moves: Seq<BitMove>,
    i: int,
    best: int,
    m: Option<BitMove>,
    far: int,
    score: int,
    alpha: int,
    beta: int,
    lo: int,
    hi: int,
)
    requires
        quick(e, bb, moves, i, best, m, far),
        0 <= far <= 1001,
        lo < -WIN_SCORE,
        hi > WIN_SCORE,
        fairly(bb.played(moves[i]), e.drawn_at(e.path_hashes@, bb.played(moves[i])), score, far, alpha, beta),
        bb.current_player == Player::White ==> beta == hi && alpha == if best > lo {
            best
        } else {
            lo
        },
        bb.current_player == Player::Black ==> alpha == lo && beta == if best < hi {
            best
        } else {
            hi
        },
    ensures
        bb.current_player == Player::White ==> if score > best {
            quick(e, bb, moves, i + 1, score, Some(moves[i]), far)
        } else {
            m is Some ==> quick(e, bb, moves, i + 1, best, m, far)
        },
        bb.current_player == Player::Black ==> if score < best {
            quick(e, bb, moves, i + 1, score, Some(moves[i]), far)
        } else {
            m is Some ==> quick(e, bb, moves, i + 1, best, m, far)
        },
{
    reveal(quick);
    reveal(fairly);
}

/// The best is no better than a win.
pub proof fn lemma_quick_best<L: OutputLayer>(
    e: BitBoardEngine<L>,
    bb: BitBoard,
    moves: Seq<BitMove>,
    i: int,
    best: int,
    m: BitMove,
    far: int,
)
    requires
        quick(e, bb, moves, i, best, Some(m), far),
    ensures
        bb.current_player == Player::White ==> best <= WIN_SCORE - far,
        bb.current_player == Player::Black ==> best >= -(WIN_SCORE - far),
{
    reveal(quick);
}

/// With all moves searched, a move that wins now is found.
pub proof fn lemma_quick_done<L: OutputLayer>(
    e: BitBoardEngine<L>,
    bb: BitBoard,
    moves: Seq<BitMove>,
    best: int,
    m: BitMove,
    far: int,
)
    requires
        exists|j: int| 0 <= j < moves.len() && #[trigger] e.wins_now(e.path_hashes@, bb, moves[j]),
    ensures
        quick(e, bb, moves, moves.len() as int, best, Some(m), far) ==> best == win_score_of(bb.current_player, far)
            && bb.played(m)@.winner() == Some(bb.current_player),
{
    reveal(quick);
    let j = choose|j: int| 0 <= j < moves.len() && #[trigger] e.wins_now(e.path_hashes@, bb, moves[j]);
    assert(e.wins_now(e.path_hashes@, bb, moves[j]));
}

} // verus!
