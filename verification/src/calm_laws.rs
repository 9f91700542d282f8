//! What quiescence makes of a position, whatever evaluates it.
use vstd::prelude::*;
use crate::bitboard::BitBoard;
use crate::bitmove::BitMove;
use crate::board::Player;
use crate::engine::{BitBoardEngine, OutputLayer};
use crate::heuristic::{heuristic_of, EvalWeights};
use crate::quiet_walk::{calms, settled, settles, Calm, CalmTry, Calming};
use crate::race::RaceTable;

verus! {

/// A better score for the side to move is taken and no other. Only white's raise the
/// lower bound, and a move cuts off exactly if its side has reached the bound of the
/// other.
pub proof fn law_calming_takes_the_better(c: Calming, white: bool, score: i32, beta: i32)
    requires
        c.alpha < beta,
    ensures
        ({
            let d = c.took(white, score, beta);
            &&& white ==> d.best >= c.best && d.best >= score
            &&& !white ==> d.best <= c.best && d.best <= score
            &&& d.best == c.best || d.best == score
            &&& white && score > c.alpha ==> d.alpha == score
            &&& !white || score <= c.alpha ==> d.alpha == c.alpha
            &&& white ==> (d.cut <==> score >= beta)
            &&& !white ==> (d.cut <==> score <= c.alpha)
        }),
{
}

proof fn lemma_calms_best<L: OutputLayer>(
    a: BitBoardEngine<L>,
    now: BitBoardEngine<L>,
    bb: BitBoard,
    moves: Seq<BitMove>,
    alpha: i32,
    beta: i32,
    qsdepth: int,
    stand_pat: i32,
    steps: Seq<CalmTry<L>>,
    end: Calming,
)
    requires
        calms(a, now, bb, moves, alpha, beta, qsdepth, stand_pat, steps, end),
    ensures
        bb.current_player == Player::White ==> end.best >= stand_pat && forall|i: int|
            0 <= i < steps.len() ==> end.best >= (#[trigger] steps[i]).score,
        bb.current_player == Player::Black ==> end.best <= stand_pat && forall|i: int|
            0 <= i < steps.len() ==> end.best <= (#[trigger] steps[i]).score,
        end.best == stand_pat || exists|i: int| 0 <= i < steps.len() && end.best == (#[trigger] steps[i]).score,
    decreases steps.len(),
{
    reveal(calms);
    if steps.len() > 0 {
        let s = steps.last();
        let front = steps.drop_last();
        lemma_calms_best(a, s.from, bb, moves, alpha, beta, qsdepth, stand_pat, front, s.before);
        assert forall|i: int| 0 <= i < steps.len() implies (if bb.current_player == Player::White {
            end.best >= (#[trigger] steps[i]).score
        } else {
            end.best <= steps[i].score
        }) by {
            if i < front.len() {
                assert(front[i] == steps[i]);
            }
        }
        if end.best == s.score {
            assert(steps[steps.len() - 1].score == end.best);
        } else if end.best != stand_pat {
            let i = choose|i: int| 0 <= i < front.len() && s.before.best == (#[trigger] front[i]).score;
            assert(steps[i].score == end.best);
        }
    }
}

/// A finished game is scored for its winner by how far it is from the root. Else the
/// side to move need not move: it gets at least its evaluation, as far as the window
/// goes, and on the last level exactly that. What is better was found behind a move.
#[verifier::spinoff_prover]
pub proof fn law_quiescence_may_stand<L: OutputLayer>(
    a: BitBoardEngine<L>,
    b: BitBoardEngine<L>,
    bb: BitBoard,
    alpha: i32,
    beta: i32,
    level: int,
    r: i32,
)
    requires
        settles(a, b, bb, alpha, beta, level, r),
        alpha < beta,
    ensures
        bb.white_scored == 4 ==> r == 100_000 - (a.ply_of() + level),
        bb.white_scored < 4 && bb.black_scored == 4 ==> r == -100_000 + (a.ply_of() + level),
        bb.white_scored < 4 && bb.black_scored < 4 ==> exists|counted: BitBoardEngine<L>, judged: BitBoardEngine<L>, e: i32|
            {
                &&& #[trigger] counted.evaluates(judged, bb, e)
                &&& bb.current_player == Player::White ==> r >= e || r == beta
                &&& bb.current_player == Player::White && e >= beta && level < 4 ==> r == beta
                &&& bb.current_player == Player::Black ==> r <= e || r == alpha
                &&& bb.current_player == Player::Black && e <= alpha && level < 4 ==> r == alpha
                &&& level >= 6 || level >= 4 && a.knobs.qs_mode != 1 ==> r == e
            },
{
    reveal(settles);
    assert(bb@.white_scored == bb.white_scored && bb@.black_scored == bb.black_scored);
    let v = choose|v: Calm<L>|
        #![trigger v.begins(a)]
        v.begins(a) && settled(a, b, v, bb, alpha, beta, level, r);
    if bb@.winner() is None {
        assert(v.counted.evaluates(v.judged, bb, v.stand_pat));
        if calms(v.judged, b, bb, v.moves, alpha, beta, level, v.stand_pat, v.steps, v.end) {
            lemma_calms_best(v.judged, b, bb, v.moves, alpha, beta, level, v.stand_pat, v.steps, v.end);
        }
    }
}

/// Where nothing is remembered of a position and there is no network, its evaluation
/// is that of the weights, and it is remembered; what is remembered is told again.
pub proof fn law_evaluations_are_remembered<L: OutputLayer>(
    a: BitBoardEngine<L>,
    b: BitBoardEngine<L>,
    bb: BitBoard,
    race: RaceTable,
    s: i32,
    r: i32,
)
    requires
        a.evaluates(b, bb, r),
        call_ensures(EvalWeights::evaluate, (&a.weights, &bb, &race), s),
    ensures
        a.eval_cache.find(bb.hash) matches Some(x) ==> r == x,
        a.eval_cache.find(bb.hash) is None && a.nnue is None ==> r == s,
        b.eval_cache.find(bb.hash) == Some(r),
        b.weights == a.weights && b.tt == a.tt && b.history == a.history && b.nodes_searched == a.nodes_searched,
{
    reveal(BitBoardEngine::evaluates);
    assert(s == heuristic_of(a.weights, bb));
}

} // verus!
