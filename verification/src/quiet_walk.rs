//! What a quiescence does, step by step: the evaluation it stands on, and the
//! tactical moves it tries.
use vstd::prelude::*;
use crate::bitboard::BitBoard;
use crate::bitmove::BitMove;
use crate::board::Player;
use crate::engine::{BitBoardEngine, OutputLayer};
use crate::movegen::lists_legal;
use crate::node::{is_legal, win_score_of};
use crate::quiesce::tactical_of;
use crate::quiet::qs_cap;

verus! {

/// A quiescence while its moves are searched: the best score, the lower bound,
/// and whether a move has cut off.
pub struct Calming {
    pub best: i32,
    pub alpha: i32,
    pub cut: bool,
}

impl Calming {
    /// Before the first move, standing on the evaluation.
    pub open spec fn start(maximizing: bool, alpha: i32, stand_pat: i32) -> Self {
        Calming {
            best: stand_pat,
            alpha: if maximizing && stand_pat > alpha {
                stand_pat
            } else {
                alpha
            },
            cut: false,
        }
    }

    /// After a move with this score.
    pub open spec fn took(self, maximizing: bool, score: i32, beta: i32) -> Self {
        let alpha = if maximizing && score > self.alpha {
            score
        } else {
            self.alpha
        };
        Calming {
            best: if maximizing && score > self.best || !maximizing && score < self.best {
                score
            } else {
                self.best
            },
            alpha,
            cut: if maximizing {
                alpha >= beta
            } else {
                score <= alpha
            },
        }
    }
}

/// A tactical move: the engine before it, at the child and after the child was
/// settled, the node before it, and its score.
pub struct CalmTry<L: OutputLayer> {
    pub from: BitBoardEngine<L>,
    pub entered: BitBoardEngine<L>,
    pub settled: BitBoardEngine<L>,
    pub before: Calming,
    pub score: i32,
}

/// The moves are the tactical ones of some list of the legal moves, in its order.
#[verifier::opaque]
pub open spec fn lists_tactical(bb: BitBoard, moves: Seq<BitMove>, qs_mode: i32) -> bool {
    exists|listed: Seq<BitMove>| #[trigger]
        lists_legal(listed, bb@) && moves == tactical_of(listed, bb.current_player, qs_mode)
}

/// The parts of a quiescence: the engine after the position was counted and
/// after it was evaluated, the evaluation, the tactical moves, the tries and the
/// node after them.
pub struct Calm<L: OutputLayer> {
    pub counted: BitBoardEngine<L>,
    pub judged: BitBoardEngine<L>,
    pub stand_pat: i32,
    pub moves: Seq<BitMove>,
    pub steps: Seq<CalmTry<L>>,
    pub end: Calming,
}

impl<L: OutputLayer> Calm<L> {
    /// The position is counted.
    pub open spec fn begins(self, a: BitBoardEngine<L>) -> bool {
        &&& self.counted == (BitBoardEngine { quiesce_nodes: self.counted.quiesce_nodes, ..a })
        &&& self.counted.quiesce_nodes == if a.quiesce_nodes == u64::MAX {
            u64::MAX as int
        } else {
            a.quiesce_nodes + 1
        }
    }
}

/// A quiescence of a position.
#[verifier::opaque]
pub open spec fn settles<L: OutputLayer>(
    a: BitBoardEngine<L>,
    b: BitBoardEngine<L>,
    bb: BitBoard,
    alpha: i32,
    beta: i32,
    qsdepth: int,
    r: i32,
) -> bool
    decreases 8 - qsdepth, 1int, 0int,
{
    qsdepth <= 6 && exists|v: Calm<L>|
        #![trigger v.begins(a)]
        v.begins(a) && settled(a, b, v, bb, alpha, beta, qsdepth, r)
}

/// A finished game scores by its distance. Else the side to move may stand on the
/// evaluation: at the deepest it does, and where the evaluation reaches the bound
/// the bound is the answer. Otherwise the tactical moves are tried.
pub open spec fn settled<L: OutputLayer>(
    a: BitBoardEngine<L>,
    b: BitBoardEngine<L>,
    v: Calm<L>,
    bb: BitBoard,
    alpha: i32,
    beta: i32,
    qsdepth: int,
    r: i32,
) -> bool
    decreases 8 - qsdepth, 0int, 0int,
{
    let maximizing = bb.current_player == Player::White;
    &&& qsdepth <= 6
    &&& v.begins(a)
    &&& if bb@.winner() is Some {
        r == win_score_of(bb@.winner()->0, a.ply_of() + qsdepth) && b == v.counted
    } else {
        &&& v.counted.evaluates(v.judged, bb, v.stand_pat)
        &&& if qsdepth >= qs_cap(a.knobs.qs_mode) {
            r == v.stand_pat && b == v.judged
        } else if maximizing && v.stand_pat >= beta {
            r == beta && b == v.judged
        } else if !maximizing && v.stand_pat <= alpha {
            r == alpha && b == v.judged
        } else {
            &&& lists_tactical(bb, v.moves, a.knobs.qs_mode)
            &&& calms(v.judged, b, bb, v.moves, alpha, beta, qsdepth, v.stand_pat, v.steps, v.end)
            &&& v.end.cut || v.steps.len() == v.moves.len()
            &&& r == v.end.best
        }
    }
}

/// The first tactical moves in their order, up to a cut-off: each is played, its
/// position is settled, and it is taken back.
#[verifier::opaque]
pub open spec fn calms<L: OutputLayer>(
    a: BitBoardEngine<L>,
    now: BitBoardEngine<L>,
    bb: BitBoard,
    moves: Seq<BitMove>,
    alpha: i32,
    beta: i32,
    qsdepth: int,
    stand_pat: i32,
    steps: Seq<CalmTry<L>>,
    end: Calming,
) -> bool
    decreases 7 - qsdepth, 2int, steps.len(),
{
    let maximizing = bb.current_player == Player::White;
    if steps.len() == 0 {
        now == a && end == Calming::start(maximizing, alpha, stand_pat)
    } else {
        let s = steps.last();
        let m = moves[steps.len() - 1];
        &&& qsdepth < 6
        &&& steps.len() <= moves.len()
        &&& !s.before.cut
        &&& calms(a, s.from, bb, moves, alpha, beta, qsdepth, stand_pat, steps.drop_last(), s.before)
        &&& is_legal(bb, m)
        &&& s.from.enters_child(s.entered, bb, bb.played(m))
        &&& settles(s.entered, s.settled, bb.played(m), s.before.alpha, beta, qsdepth + 1, s.score)
        &&& s.settled.leaves_child(now)
        &&& end == s.before.took(maximizing, s.score, beta)
    }
}

#[verifier::spinoff_prover]
pub(crate) proof fn lemma_calms_start<L: OutputLayer>(
    a: BitBoardEngine<L>,
    bb: BitBoard,
    moves: Seq<BitMove>,
    alpha: i32,
    beta: i32,
    qsdepth: int,
    stand_pat: i32,
)
    ensures
        calms(
            a,
            a,
            bb,
            moves,
            alpha,
            beta,
            qsdepth,
            stand_pat,
            Seq::empty(),
            Calming::start(bb.current_player == Player::White, alpha, stand_pat),
        ),
{
    reveal(calms);
}

/// One more tactical move.
#[verifier::spinoff_prover]
pub(crate) proof fn lemma_calms_more<L: OutputLayer>(
    a: BitBoardEngine<L>,
    now: BitBoardEngine<L>,
    bb: BitBoard,
    moves: Seq<BitMove>,
    alpha: i32,
    beta: i32,
    qsdepth: int,
    stand_pat: i32,
    steps: Seq<CalmTry<L>>,
    s: CalmTry<L>,
)
    requires
        calms(a, s.from, bb, moves, alpha, beta, qsdepth, stand_pat, steps, s.before),
        qsdepth < 6,
        steps.len() < moves.len(),
        !s.before.cut,
        is_legal(bb, moves[steps.len() as int]),
        s.from.enters_child(s.entered, bb, bb.played(moves[steps.len() as int])),
        settles(s.entered, s.settled, bb.played(moves[steps.len() as int]), s.before.alpha, beta, qsdepth + 1, s.score),
        s.settled.leaves_child(now),
    ensures
        calms(
            a,
            now,
            bb,
            moves,
            alpha,
            beta,
            qsdepth,
            stand_pat,
            steps.push(s),
            s.before.took(bb.current_player == Player::White, s.score, beta),
        ),
{
    assert(steps.push(s).drop_last() =~= steps);
    reveal(calms);
}

/// A quiescence from its parts.
#[verifier::spinoff_prover]
pub(crate) proof fn lemma_settled<L: OutputLayer>(
    a: BitBoardEngine<L>,
    b: BitBoardEngine<L>,
    v: Calm<L>,
    bb: BitBoard,
    alpha: i32,
    beta: i32,
    qsdepth: int,
    r: i32,
)
    requires
        settled(a, b, v, bb, alpha, beta, qsdepth, r),
    ensures
        settles(a, b, bb, alpha, beta, qsdepth, r),
{
    reveal(settles);
    assert(v.begins(a));
}

} // verus!
