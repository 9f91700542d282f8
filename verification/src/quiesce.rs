//! Quiescence: below the search's depth only moves that score, or are about
//! to, are followed.
use vstd::prelude::*;
use crate::bitboard::BitBoard;
use crate::bitmove::BitMove;
use crate::board::Player;
use crate::engine::{score_ok, BitBoardEngine, OutputLayer, WIN_BOUND, WIN_SCORE};
use crate::engine_state::MILD_EVAL;
use crate::forced::{
    forced, lemma_move_proves, lemma_proves_end, lemma_proves_mild, lemma_sound_cache, lemma_sound_mild, lemma_sound_same, proves,
};
use crate::heuristic::{goal_dist, heuristic_of};
use crate::movegen::{has_action, lists_legal};
use crate::node::{
    all_legal, board_ok, child_of, is_legal, keyed, legal_moves, lemma_keyed_child, lemma_less_room, win_score,
    win_score_of, window_ok,
};
use crate::plain_search::PLAIN_LIMIT;
use crate::quick_wins::in_reach;
use crate::quiet_walk::{
    calms, lemma_calms_more, lemma_calms_start, lemma_settled, lists_tactical, settles, Calm, CalmTry, Calming,
};
use crate::quiet::{
    better_of, bounds, is_tactical, known_by_hash, lemma_known_parts, lemma_lower, lemma_quiet_ends, lemma_quiet_parts, lemma_raise, no_worse, qs_cap, quiet_value,
    QuietRules,
};
use crate::retrograde::lemma_played_same;
use crate::rules::Action;
use crate::squares::BOARD_SIZE;

verus! {

/// The barrel moves of the list that end `dist` rows from the goal, in order.
pub open spec fn ending_at(moves: Seq<BitMove>, p: Player, dist: int) -> Seq<BitMove>
    decreases moves.len(),
{
    if moves.len() == 0 {
        Seq::empty()
    } else {
        let rest = ending_at(moves.drop_last(), p, dist);
        let m = moves.last();
        if !m.pail_only() && goal_dist(p, m.to_sq()) == dist {
            rest.push(m)
        } else {
            rest
        }
    }
}

#[verifier::spinoff_prover]
proof fn lemma_ending_legal(bb: BitBoard, moves: Seq<BitMove>, p: Player, dist: int)
    requires
        all_legal(bb, moves),
    ensures
        all_legal(bb, ending_at(moves, p, dist)),
    decreases moves.len(),
{
    if moves.len() > 0 {
        let front = moves.drop_last();
        assert(all_legal(bb, front)) by {
            assert forall|i: int| 0 <= i < front.len() implies is_legal(bb, #[trigger] front[i]) by {
                assert(front[i] == moves[i]);
            }
        }
        lemma_ending_legal(bb, front, p, dist);
        assert(is_legal(bb, moves[moves.len() - 1]));
    }
}

/// Appends the barrel moves that end `dist` rows from the goal.
#[verifier::spinoff_prover]
fn push_ending_at(moves: &Vec<BitMove>, player: Player, dist: usize, out: &mut Vec<BitMove>)
    requires
        forall|i: int| 0 <= i < moves@.len() ==> (#[trigger] moves@[i]).valid(),
    ensures
        final(out)@ == old(out)@ + ending_at(moves@, player, dist as int),
{
    let ghost before = out@;
    let mut i: usize = 0;
    assert(moves@.subrange(0, 0) =~= Seq::<BitMove>::empty());
    assert(before + Seq::<BitMove>::empty() =~= before);
    while i < moves.len()
        invariant
            i <= moves@.len(),
            forall|k: int| 0 <= k < moves@.len() ==> (#[trigger] moves@[k]).valid(),
            out@ == before + ending_at(moves@.subrange(0, i as int), player, dist as int),
        decreases moves@.len() - i,
    {
        let mv: BitMove = moves[i];
        assert(moves@[i as int].valid());
        let row: usize = mv.barrel_to() as usize / BOARD_SIZE;
        let to_goal: usize = match player {
            Player::White => row,
            Player::Black => BOARD_SIZE - 1 - row,
        };
        proof {
            let s = moves@.subrange(0, i as int + 1);
            assert(s.drop_last() =~= moves@.subrange(0, i as int));
            assert(s.last() == mv);
        }
        let ghost mid = out@;
        if !mv.is_pail_placement() && to_goal == dist {
            out.push(mv);
            proof {
                let e = ending_at(moves@.subrange(0, i as int), player, dist as int);
                assert((before + e).push(mv) =~= before + e.push(mv));
            }
        }
        i = i + 1;
    }
    assert(moves@.subrange(0, i as int) =~= moves@);
}

/// The moves quiescence follows: scoring moves, and in mode 1 then the moves to
/// the row before the goal.
pub open spec fn tactical_of(moves: Seq<BitMove>, p: Player, qs_mode: i32) -> Seq<BitMove> {
    ending_at(moves, p, 0) + if qs_mode == 1 {
        ending_at(moves, p, 1)
    } else {
        Seq::empty()
    }
}

#[verifier::spinoff_prover]
fn tactical_moves(bb: &BitBoard, qs_mode: i32, Ghost(room): Ghost<int>) -> (r: Vec<BitMove>)
    requires
        board_ok(*bb, room),
    ensures
        all_legal(*bb, r@),
        exists|moves: Seq<BitMove>|
            #[trigger] lists_legal(moves, bb@) && r@ == tactical_of(moves, bb.current_player, qs_mode),
        forall|i: int| 0 <= i < r@.len() ==> is_tactical(*bb, #[trigger] r@[i], qs_mode),
        forall|m: BitMove| is_tactical(*bb, m, qs_mode) ==> #[trigger] leads_to(*bb, r@, bb.played(m)),
{
    let moves = legal_moves(bb, Ghost(room));
    let mut r: Vec<BitMove> = Vec::new();
    push_ending_at(&moves, bb.current_player, 0, &mut r);
    let ghost first = ending_at(moves@, bb.current_player, 0);
    assert(r@ =~= first);
    if qs_mode == 1 {
        push_ending_at(&moves, bb.current_player, 1, &mut r);
    }
    proof {
        lemma_ending_legal(*bb, moves@, bb.current_player, 0);
        lemma_ending_legal(*bb, moves@, bb.current_player, 1);
        assert(r@ =~= tactical_of(moves@, bb.current_player, qs_mode));
        assert forall|i: int| 0 <= i < r@.len() implies is_legal(*bb, #[trigger] r@[i]) by {
            if i < first.len() {
                assert(r@[i] == first[i]);
            } else {
                assert(r@[i] == ending_at(moves@, bb.current_player, 1)[i - first.len()]);
            }
        }
        reveal(is_tactical);
        lemma_ending_rows(moves@, bb.current_player, 0);
        lemma_ending_rows(moves@, bb.current_player, 1);
        assert forall|i: int| 0 <= i < r@.len() implies is_tactical(*bb, #[trigger] r@[i], qs_mode) by {
            assert(is_legal(*bb, r@[i]));
            if i < first.len() {
                assert(r@[i] == first[i]);
            } else {
                assert(r@[i] == ending_at(moves@, bb.current_player, 1)[i - first.len()]);
            }
        }
        assert forall|m: BitMove| is_tactical(*bb, m, qs_mode) implies #[trigger] leads_to(*bb, r@, bb.played(m)) by {
            lemma_tactical_listed(*bb, moves@, r@, m, qs_mode);
        }
    }
    r
}

/// Some move of the list leads to the position.
pub open spec fn leads_to(bb: BitBoard, moves: Seq<BitMove>, child: BitBoard) -> bool {
    exists|j: int| 0 <= j < moves.len() && bb.played(#[trigger] moves[j]) == child
}

/// What `ending_at` keeps.
#[verifier::spinoff_prover]
proof fn lemma_ending_rows(moves: Seq<BitMove>, p: Player, dist: int)
    ensures
        forall|i: int|
            0 <= i < ending_at(moves, p, dist).len() ==> !(#[trigger] ending_at(moves, p, dist)[i]).pail_only()
                && goal_dist(p, ending_at(moves, p, dist)[i].to_sq()) == dist,
    decreases moves.len(),
{
    if moves.len() > 0 {
        lemma_ending_rows(moves.drop_last(), p, dist);
        let rest = ending_at(moves.drop_last(), p, dist);
        let all = ending_at(moves, p, dist);
        assert forall|i: int| 0 <= i < all.len() implies !(#[trigger] all[i]).pail_only() && goal_dist(
            p,
            all[i].to_sq(),
        ) == dist by {
            if i < rest.len() {
                assert(all[i] == rest[i]);
            } else {
                assert(all[i] == moves.last());
            }
        }
    }
}

#[verifier::spinoff_prover]
proof fn lemma_ending_has(moves: Seq<BitMove>, p: Player, dist: int, i: int)
    requires
        0 <= i < moves.len(),
        !moves[i].pail_only(),
        goal_dist(p, moves[i].to_sq()) == dist,
    ensures
        ending_at(moves, p, dist).contains(moves[i]),
    decreases moves.len(),
{
    let rest = ending_at(moves.drop_last(), p, dist);
    if i == moves.len() - 1 {
        assert(rest.push(moves[i]).last() == moves[i]);
        assert(rest.push(moves[i])[rest.len() as int] == moves[i]);
    } else {
        lemma_ending_has(moves.drop_last(), p, dist, i);
        let k = choose|k: int| 0 <= k < rest.len() && rest[k] == moves[i];
        assert(rest.push(moves.last())[k] == moves[i]);
    }
}

/// A tactical move is in the list, as a move with the same effect.
#[verifier::spinoff_prover]
proof fn lemma_tactical_listed(bb: BitBoard, moves: Seq<BitMove>, r: Seq<BitMove>, m: BitMove, qs_mode: i32)
    requires
        lists_legal(moves, bb@),
        all_legal(bb, moves),
        r == tactical_of(moves, bb.current_player, qs_mode),
        is_tactical(bb, m, qs_mode),
    ensures
        leads_to(bb, r, bb.played(m)),
{
    reveal(is_legal);
    reveal(is_tactical);
    let kind = |a: Action| bb@.legal(a);
    assert(kind(m@));
    assert(has_action(moves, 0, m@));
    let i = choose|i: int| 0 <= i < moves.len() && (#[trigger] moves[i])@ == m@;
    assert(is_legal(bb, moves[i]));
    lemma_played_same(bb, moves[i], m);
    if !m.places_barrel() {
        assert(moves[i].landings() == m.landings());
        assert(moves[i].landings().last() == m.landings().last());
    }
    assert(moves[i].to_sq() == m.to_sq());
    let p = bb.current_player;
    let first = ending_at(moves, p, 0);
    if goal_dist(p, m.to_sq()) == 0 {
        lemma_ending_has(moves, p, 0, i);
        let j = choose|j: int| 0 <= j < first.len() && first[j] == moves[i];
        assert(bb.played(r[j]) == bb.played(m));
    } else {
        lemma_ending_has(moves, p, 1, i);
        let second = ending_at(moves, p, 1);
        let j = choose|j: int| 0 <= j < second.len() && second[j] == moves[i];
        assert(r[first.len() + j] == moves[i]);
        assert(bb.played(r[first.len() + j]) == bb.played(m));
    }
}

impl<L: OutputLayer> BitBoardEngine<L> {
    /// What quiescence may change.
    pub open spec fn quiet_step(&self, after: Self) -> bool {
        after == (BitBoardEngine {
            quiesce_nodes: after.quiesce_nodes,
            eval_cache: after.eval_cache,
            eval_cache_hits: after.eval_cache_hits,
            acc_stack: after.acc_stack,
            ..*self
        })
    }

    /// What quiescence returns of a position whose static evaluation is `sp`,
    /// its tactical moves aside.
    pub open spec fn stands_pat(&self, sp: int, r: int, alpha: i32, beta: i32, maximizing: bool, qsdepth: int) -> bool {
        if qsdepth >= qs_cap(self.knobs.qs_mode) {
            r == sp
        } else if maximizing {
            if sp >= beta {
                r == beta
            } else {
                r >= sp
            }
        } else {
            if sp <= alpha {
                r == alpha
            } else {
                r <= sp
            }
        }
    }

    /// What values are judged by in a quiescence from the current node.
    pub open spec fn quiet_rules(&self) -> QuietRules {
        QuietRules { weights: self.weights, qs_mode: self.knobs.qs_mode, ply: self.ply_of() }
    }

    /// Evaluations are those of the heuristic: there is no network, and what
    /// the cache holds comes from it.
    pub open spec fn plain(&self) -> bool {
        self.nnue is None && self.honest()
    }

    /// Searches tactical moves only. The side to move may always stand on the
    /// static evaluation. With plain evaluations, and hashes that tell those of
    /// the position and of others near it, the result bounds the value of the
    /// position, and is the value if it lies inside the window. A winning score
    /// is never claimed in vain.
    #[verifier::spinoff_prover]
    #[verifier::rlimit(40)]
    pub(crate) fn quiesce(
        &mut self,
        bb: &BitBoard,
        alpha_in: i32,
        beta: i32,
        maximizing: bool,
        qsdepth: u8,
        Ghost(room): Ghost<int>,
    ) -> (r: i32)
        requires
            old(self).wf(),
            qsdepth <= 6,
            room >= 7 - qsdepth,
            board_ok(*bb, room),
            window_ok(alpha_in, beta),
            old(self).path_hashes@.len() <= 100_001,
            maximizing == (bb.current_player == Player::White),
        ensures
            final(self).wf(),
            old(self).plain() && keyed(*bb) ==> final(self).plain(),
            old(self).plain() && keyed(*bb) && known_by_hash(old(self).weights, *bb, 7 - qsdepth) ==> bounds(
                r as int,
                quiet_value(old(self).quiet_rules(), *bb, qsdepth as int),
                alpha_in as int,
                beta as int,
            ),
            keyed(*bb) && old(self).sound() ==> final(self).sound() && proves(
                bb.hash,
                r as int,
                old(self).ply_of() + qsdepth,
                alpha_in as int,
                beta as int,
            ),
            old(self).calm() ==> final(self).calm(),
            old(self).calm() && alpha_in <= PLAIN_LIMIT && beta >= -PLAIN_LIMIT ==> -PLAIN_LIMIT <= r <= PLAIN_LIMIT,
            old(self).calm() && old(self).ply_of() <= 1001 ==> in_reach(
                r as int,
                old(self).ply_of() + qsdepth,
                bb@.winner() is Some,
                alpha_in as int,
                beta as int,
            ),
            old(self).quiet_step(*final(self)),
            score_ok(r as int),
            bb@.winner() matches Some(w) ==> r == win_score_of(w, old(self).ply_of() + qsdepth),
            bb@.winner() is None && old(self).nnue is None ==> old(self).stands_pat(
                old(self).static_eval(*bb),
                r as int,
                alpha_in,
                beta,
                maximizing,
                qsdepth as int,
            ),
            settles(*old(self), *final(self), *bb, alpha_in, beta, qsdepth as int, r),
        decreases 7 - qsdepth,
    {
        let cap: u8 = if self.knobs.qs_mode == 1 { 6 } else { 4 };
        let ghost q = self.quiet_rules();
        let ghost d = qsdepth as int;
        let ghost kept = self.plain() && keyed(*bb);
        let ghost plain = kept && known_by_hash(self.weights, *bb, 7 - d);
        let ghost value = quiet_value(q, *bb, d);
        let ghost sure = keyed(*bb) && self.sound();
        let ghost far = self.ply_of() + d;
        let ghost calm = self.calm();
        let ghost near = calm && alpha_in <= PLAIN_LIMIT && beta >= -PLAIN_LIMIT;
        proof {
            lemma_less_room(*bb, room, 1);
            if sure && bb@.winner() is Some {
                lemma_proves_end(*bb, bb@.winner()->0, far, alpha_in as int, beta as int);
            }
            lemma_quiet_ends(q, *bb, d);
            if plain {
                lemma_known_parts(self.weights, *bb, 7 - d);
            }
            if bb@.winner() is None && d < cap {
                lemma_quiet_parts(q, *bb, d);
            }
        }
        self.quiesce_nodes = self.quiesce_nodes.saturating_add(1);
        proof {
            assert(self.wf()) by {
                reveal(BitBoardEngine::tables_ok);
            }
            assert(kept ==> self.plain()) by {
                reveal(BitBoardEngine::honest);
            }
            lemma_sound_same(*old(self), *self);
        }
        let ghost mut v = Calm {
            counted: *self,
            judged: *self,
            stand_pat: 0,
            moves: Seq::empty(),
            steps: Seq::empty(),
            end: Calming { best: 0, alpha: 0, cut: false },
        };
        if let Some(winner) = bb.check_winner() {
            proof {
                lemma_settled(
                    *old(self),
                    *self,
                    v,
                    *bb,
                    alpha_in,
                    beta,
                    d,
                    win_score_of(winner, self.ply_of() + d) as i32,
                );
            }
            return win_score(winner, self.ply() + qsdepth as i32);
        }
        proof {
            assert(bb.wf()) by {
                reveal(board_ok);
            }
        }
        let ghost counted = *self;
        let stand_pat: i32 = self.evaluate(bb);
        proof {
            v = Calm { judged: *self, stand_pat, ..v };
            if qsdepth >= cap {
                lemma_settled(*old(self), *self, v, *bb, alpha_in, beta, d, stand_pat);
            } else if maximizing && stand_pat >= beta {
                lemma_settled(*old(self), *self, v, *bb, alpha_in, beta, d, beta);
            } else if !maximizing && stand_pat <= alpha_in {
                lemma_settled(*old(self), *self, v, *bb, alpha_in, beta, d, alpha_in);
            }
            if sure {
                lemma_sound_mild(counted);
                lemma_sound_cache(counted, *self);
                lemma_proves_mild(bb.hash, stand_pat as int, far, alpha_in as int, beta as int);
                if stand_pat >= beta && maximizing {
                    reveal(proves);
                }
                if stand_pat <= alpha_in && !maximizing {
                    reveal(proves);
                }
            }
        }
        if qsdepth >= cap {
            return stand_pat;
        }
        let mut alpha: i32 = alpha_in;
        if maximizing {
            if stand_pat >= beta {
                return beta;
            }
            if stand_pat > alpha {
                alpha = stand_pat;
            }
        } else {
            if stand_pat <= alpha {
                return alpha;
            }
        }
        let moves = tactical_moves(bb, self.knobs.qs_mode, Ghost(room));
        let mut best: i32 = stand_pat;
        let ghost mut ext: int = stand_pat as int;
        let mut i: usize = 0;
        let mut cut: bool = false;
        let ghost judged = *self;
        let ghost mut steps: Seq<CalmTry<L>> = Seq::empty();
        proof {
            lemma_calms_start(judged, *bb, moves@, alpha_in, beta, d, stand_pat);
        }
        while i < moves.len() && !cut
            invariant
                steps.len() == i,
                calms(
                    judged,
                    *self,
                    *bb,
                    moves@,
                    alpha_in,
                    beta,
                    d,
                    stand_pat,
                    steps,
                    Calming { best, alpha, cut },
                ),
                qsdepth < cap <= 6,
                room >= 7 - qsdepth,
                board_ok(*bb, room),
                all_legal(*bb, moves@),
                i <= moves@.len(),
                self.wf(),
                old(self).quiet_step(*self),
                old(self).path_hashes@.len() <= 100_001,
                !cut ==> window_ok(alpha, beta),
                score_ok(best as int),
                maximizing ==> best >= stand_pat,
                !maximizing ==> best <= stand_pat,
                alpha_in < beta,
                maximizing == (bb.current_player == Player::White),
                q == old(self).quiet_rules(),
                d == qsdepth,
                kept == (old(self).plain() && keyed(*bb)),
                kept ==> self.plain(),
                plain == (kept && known_by_hash(old(self).weights, *bb, 7 - d)),
                forall|j: int| 0 <= j < moves@.len() ==> is_tactical(*bb, #[trigger] moves@[j], q.qs_mode),
                maximizing && !cut ==> alpha == (if best > alpha_in { best } else { alpha_in }),
                !maximizing ==> alpha == alpha_in,
                maximizing && cut ==> best >= beta,
                !maximizing && cut ==> best <= alpha_in,
                calm ==> self.calm(),
                near ==> calm && alpha_in <= PLAIN_LIMIT && beta >= -PLAIN_LIMIT && -PLAIN_LIMIT <= best <= PLAIN_LIMIT,
                far == old(self).ply_of() + d,
                calm ==> old(self).calm() && -MILD_EVAL <= stand_pat <= MILD_EVAL,
                calm && old(self).ply_of() <= 1001 && maximizing && best > alpha_in ==> best <= WIN_SCORE - far - 1,
                calm && old(self).ply_of() <= 1001 && !maximizing && best < beta ==> best >= -(WIN_SCORE - far - 1),
                sure == (keyed(*bb) && old(self).sound()),
                sure ==> self.sound() && -MILD_EVAL <= stand_pat <= MILD_EVAL,
                far == old(self).ply_of() + d,
                bb@.winner() is None,
                board_ok(*bb, 1),
                sure && maximizing && best > WIN_BOUND && best > alpha_in ==> forced(
                    Player::White,
                    bb.hash,
                    WIN_SCORE - best - far,
                ),
                sure && !maximizing && best < -WIN_BOUND && best < beta ==> forced(
                    Player::Black,
                    bb.hash,
                    WIN_SCORE + best - far,
                ),
                plain ==> bounds(best as int, ext, alpha_in as int, beta as int),
                !maximizing && !cut ==> best > alpha_in,
                plain ==> so_far(q, *bb, d, moves@, i as int, stand_pat as int, ext),
            decreases moves@.len() - i,
        {
            proof {
                assert(is_legal(*bb, moves@[i as int]));
            }
            let child = child_of(bb, &moves[i], Ghost(room - 1));
            proof {
                lemma_less_room(child, room - 1, 0);
                if plain {
                    lemma_known_parts(old(self).weights, *bb, 7 - d);
                }
                if keyed(*bb) {
                    lemma_keyed_child(*bb, moves@[i as int], room);
                }
            }
            let ghost outside = *self;
            self.enter_child(bb, &child, Ghost(room));
            let child_maximizing: bool = child.current_player == Player::White;
            proof {
                assert(kept ==> self.plain()) by {
                    reveal(BitBoardEngine::honest);
                }
                lemma_sound_same(outside, *self);
            }
            let ghost entered = *self;
            let score: i32 = self.quiesce(&child, alpha, beta, child_maximizing, qsdepth + 1, Ghost(room - 1));
            let ghost settled = *self;
            self.leave_child();
            proof {
                let s = CalmTry {
                    from: outside,
                    entered,
                    settled,
                    before: Calming { best, alpha, cut },
                    score,
                };
                lemma_calms_more(judged, *self, *bb, moves@, alpha_in, beta, d, stand_pat, steps, s);
                steps = steps.push(s);
                assert(kept ==> self.plain()) by {
                    reveal(BitBoardEngine::honest);
                }
                lemma_sound_same(settled, *self);
                if sure {
                    lemma_move_proves(*bb, moves@[i as int], score as int, far, alpha as int, beta as int);
                }
                let c = quiet_value(q, child, d + 1);
                if plain {
                    if maximizing {
                        lemma_raise(
                            alpha_in as int,
                            beta as int,
                            best as int,
                            ext,
                            alpha as int,
                            score as int,
                            c,
                        );
                    } else {
                        lemma_lower(alpha as int, beta as int, best as int, ext, beta as int, score as int, c);
                    }
                    lemma_so_far(q, *bb, d, moves@, i as int, stand_pat as int, ext);
                }
                ext = better_of(maximizing, ext, c);
            }
            if maximizing {
                if score > best {
                    best = score;
                }
                if score > alpha {
                    alpha = score;
                }
                if alpha >= beta {
                    cut = true;
                }
            } else {
                if score < best {
                    best = score;
                }
                if score <= alpha {
                    cut = true;
                }
            }
            i = i + 1;
        }
        proof {
            if plain {
                assert(is_tactical(*bb, moves@[0], q.qs_mode) || moves@.len() == 0);
                lemma_all_so_far(q, *bb, d, moves@, i as int, stand_pat as int, ext);
            }
            if sure {
                reveal(proves);
            }
            assert(lists_tactical(*bb, moves@, q.qs_mode)) by {
                reveal(lists_tactical);
            }
            v = Calm { moves: moves@, steps, end: Calming { best, alpha, cut }, ..v };
            lemma_settled(*old(self), *self, v, *bb, alpha_in, beta, d, best);
        }
        best
    }
}

/// `ext` is the best of the evaluation and the values behind the first `n`
/// moves.
spec fn so_far(q: QuietRules, bb: BitBoard, d: int, moves: Seq<BitMove>, n: int, sp: int, ext: int) -> bool {
    let white = bb.current_player == Player::White;
    &&& no_worse(white, ext, sp)
    &&& forall|j: int| 0 <= j < n ==> no_worse(white, ext, quiet_value(q, bb.played(#[trigger] moves[j]), d + 1))
    &&& ext == sp || exists|j: int| 0 <= j < n && ext == quiet_value(q, bb.played(#[trigger] moves[j]), d + 1)
}

#[verifier::spinoff_prover]
proof fn lemma_so_far(q: QuietRules, bb: BitBoard, d: int, moves: Seq<BitMove>, n: int, sp: int, ext: int)
    requires
        0 <= n < moves.len(),
        so_far(q, bb, d, moves, n, sp, ext),
    ensures
        so_far(
            q,
            bb,
            d,
            moves,
            n + 1,
            sp,
            better_of(bb.current_player == Player::White, ext, quiet_value(q, bb.played(moves[n]), d + 1)),
        ),
{
    let white = bb.current_player == Player::White;
    let c = quiet_value(q, bb.played(moves[n]), d + 1);
    let e = better_of(white, ext, c);
    if e == ext && ext != sp {
        let j = choose|j: int| 0 <= j < n && ext == quiet_value(q, bb.played(#[trigger] moves[j]), d + 1);
        assert(0 <= j < n + 1 && e == quiet_value(q, bb.played(moves[j]), d + 1));
    }
}

/// The best so far never beats the value, and with all moves it is the value.
#[verifier::spinoff_prover]
proof fn lemma_all_so_far(q: QuietRules, bb: BitBoard, d: int, moves: Seq<BitMove>, n: int, sp: int, ext: int)
    requires
        0 <= n <= moves.len(),
        bb@.winner() is None,
        0 <= d < qs_cap(q.qs_mode),
        sp == heuristic_of(q.weights, bb),
        so_far(q, bb, d, moves, n, sp, ext),
        forall|j: int| 0 <= j < moves.len() ==> is_tactical(bb, #[trigger] moves[j], q.qs_mode),
        forall|m: BitMove| is_tactical(bb, m, q.qs_mode) ==> #[trigger] leads_to(bb, moves, bb.played(m)),
    ensures
        no_worse(bb.current_player == Player::White, quiet_value(q, bb, d), ext),
        n == moves.len() ==> quiet_value(q, bb, d) == ext,
{
    lemma_quiet_parts(q, bb, d);
    let v = quiet_value(q, bb, d);
    if ext != sp {
        let j = choose|j: int| 0 <= j < n && ext == quiet_value(q, bb.played(#[trigger] moves[j]), d + 1);
        assert(is_tactical(bb, moves[j], q.qs_mode));
    }
    if n == moves.len() && v != sp {
        let m = choose|m: BitMove| #[trigger]
            is_tactical(bb, m, q.qs_mode) && v == quiet_value(q, bb.played(m), d + 1);
        assert(leads_to(bb, moves, bb.played(m)));
        let j = choose|j: int| 0 <= j < moves.len() && bb.played(#[trigger] moves[j]) == bb.played(m);
        assert(no_worse(bb.current_player == Player::White, ext, quiet_value(q, bb.played(moves[j]), d + 1)));
    }
}

} // verus!
