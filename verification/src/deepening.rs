//! Searching from a root: aspiration windows, iterative deepening and a time
//! limit.
use vstd::prelude::*;
use crate::bitboard::BitBoard;
use crate::bitmove::BitMove;
use crate::board::Player;
use crate::clock::Deadline;
use crate::engine::{score_ok, BitBoardEngine, OutputLayer, SCORE_LIMIT, WIN_BOUND};
use crate::engine_state::{fresh_killers, headway, mild_cache, no_killers};
use crate::forced::{lemma_proves_mild, proves, slot_true};
use crate::node::{board_ok, can_act, is_legal, keyed, win_score_of, window_ok};
use crate::plain_search::{
    lemma_deeper_tells, lemma_empty_tells, lemma_plain_setup, lemma_plainly_same, lemma_tree_root, plain_value, table_tells,
    SearchTree, PLAIN_LIMIT,
};
use crate::quiet::{bounds, known_by_hash, lemma_known_less};
use crate::root_walk::{
    counted, deepens, lemma_deepens_more, lemma_deepens_start, lemma_misses_more, lemma_misses_start, misses, Aim, Iteration, Miss,
    RootSearch,
};
use crate::search::{as_good, lemma_true_same, lemma_same_answers, lemma_takes_fixed, slot_keyed};
use crate::tt::shallower;
use crate::walk::visits;

verus! {

/// The deepest search of a timed search.
pub const TIMED_MAX_DEPTH: u8 = 30;

/// A game position whose counters leave room for any search.
pub open spec fn searchable(bb: BitBoard) -> bool {
    bb.wf() && bb.move_count <= u32::MAX - 300 && bb.halfmove_clock <= u16::MAX - 300
}

/// The score is a proven win for the player.
pub open spec fn proven_win(p: Player, score: int) -> bool {
    match p {
        Player::White => score > WIN_BOUND,
        Player::Black => score < -WIN_BOUND,
    }
}

fn is_proven_win(p: Player, score: i32) -> (r: bool)
    ensures
        r == proven_win(p, score as int),
{
    match p {
        Player::White => score > WIN_BOUND,
        Player::Black => score < -WIN_BOUND,
    }
}

/// `score - delta`, not below the lowest useful bound.
fn lower_bound(score: i32, delta: i32) -> (r: i32)
    requires
        score_ok(score as int),
        1 <= delta <= 1_000_000_000,
    ensures
        r == if score - delta < -SCORE_LIMIT - 1 {
            -SCORE_LIMIT - 1
        } else {
            score - delta
        },
{
    let x: i32 = score - delta;
    if x < -SCORE_LIMIT - 1 {
        -SCORE_LIMIT - 1
    } else {
        x
    }
}

/// `score + delta`, not above the highest useful bound.
fn upper_bound(score: i32, delta: i32) -> (r: i32)
    requires
        score_ok(score as int),
        1 <= delta <= 1_000_000_000,
    ensures
        r == if score + delta > SCORE_LIMIT + 1 {
            SCORE_LIMIT + 1
        } else {
            score + delta
        },
{
    let x: i32 = score + delta;
    if x > SCORE_LIMIT + 1 {
        SCORE_LIMIT + 1
    } else {
        x
    }
}

/// The tree of all moves within `reach` of a position, searched to `depth`.
pub open spec fn tree_of(bb: BitBoard, depth: int, reach: int) -> SearchTree {
    SearchTree { root: bb, depth, reach }
}

impl<L: OutputLayer> BitBoardEngine<L> {
    /// What a search from a root leaves alone.
    pub open spec fn searched_from(&self, after: Self, bb: BitBoard) -> bool {
        &&& after.wf()
        &&& after.fixed() == self.fixed()
        &&& after.path_hashes@ == Seq::<u64>::empty()
        &&& after.root_player == bb.current_player
        &&& after.deadline == self.deadline
        &&& self.search_stopped ==> after.search_stopped
    }

    /// A search of a position with its own hash brings no win that is not there:
    /// a winning score proves a forced win at the distance it tells.
    pub open spec fn proves_at(&self, after: Self, bb: BitBoard, score: int) -> bool {
        keyed(bb) && self.sound() ==> after.sound() && proves(bb.hash, score, 0, i32::MIN + 1, i32::MAX - 1)
    }

    /// The engine with the position's side to move as the root's.
    pub open spec fn at_root(&self, bb: BitBoard) -> Self {
        BitBoardEngine { root_player: bb.current_player, ..*self }
    }

    /// What a whole search to a depth finds with everything switched off that
    /// leaves out moves or depth: exactly the plain minimax value, and a move
    /// that reaches it.
    pub open spec fn finds_plainly(
        &self,
        after: Self,
        bb: BitBoard,
        depth: u8,
        reach: int,
        first: bool,
        r: (i32, Option<BitMove>),
    ) -> bool {
        let t = SearchTree { root: bb, depth: depth as int, reach };
        let e = self.at_root(bb);
        e.searches_plainly(t) && keyed(bb) && known_by_hash(self.weights, bb, depth + 7) && !after.search_stopped ==> {
            &&& r.0 == plain_value(e.plain_rules(), bb, depth as int, 0)
            &&& -PLAIN_LIMIT <= r.0 <= PLAIN_LIMIT
            &&& after.searches_plainly(t)
            &&& first && shallower(self.tt.find(bb.hash), depth as int) && depth > 0 ==> (r.1 matches Some(m) ==> is_legal(bb, m) && plain_value(
                e.plain_rules(),
                bb.played(m),
                depth - 1,
                1,
            ) == r.0)
        }
    }

    /// Every search of the position up to a depth is plain: nothing is left out,
    /// evaluations are the heuristic's and calm, and positions are told by their
    /// hash.
    #[verifier::opaque]
    pub open spec fn deepens_plainly(&self, bb: BitBoard, max_depth: int) -> bool {
        let e = self.at_root(bb);
        &&& e.unpruned()
        &&& e.calm()
        &&& e.plain()
        &&& keyed(bb)
        &&& known_by_hash(self.weights, bb, max_depth + 7)
        &&& 0 <= max_depth <= 255
        &&& forall|d: int|
            0 <= d <= max_depth ==> #[trigger] tree_of(bb, d, max_depth).is_told(e.plain_rules())
        &&& table_tells(tree_of(bb, 0, max_depth), e.plain_rules(), self.tt)
    }

    /// What deepening with everything switched off finds: exactly the plain
    /// minimax value of the last whole iteration's depth.
    pub open spec fn deepened_plainly(&self, bb: BitBoard, max_depth: int, completed: int, score: int) -> bool {
        self.deepens_plainly(bb, max_depth) && completed > 0 ==> score == plain_value(
            self.at_root(bb).plain_rules(),
            bb,
            completed,
            0,
        )
    }

    /// What deepening with whole windows and everything switched off finds: the
    /// move reaches the score, if the table knew nothing of the root.
    pub open spec fn moves_plainly(
        &self,
        bb: BitBoard,
        max_depth: int,
        completed: int,
        score: int,
        mv: Option<BitMove>,
    ) -> bool {
        self.deepens_plainly(bb, max_depth) && completed > 0 && self.tt.find(bb.hash) is None ==> (mv matches Some(m)
            ==> is_legal(bb, m) && plain_value(self.at_root(bb).plain_rules(), bb.played(m), completed - 1, 1) == score)
    }

    /// Between two iterations the next can be as plain.
    #[verifier::opaque]
    pub open spec fn goes_on_plainly(&self, now: Self, bb: BitBoard, max_depth: int, completed: int, score: int) -> bool {
        self.deepens_plainly(bb, max_depth) ==> {
            &&& !now.search_stopped ==> now.calm() && now.plain() && table_tells(
                tree_of(bb, completed, max_depth),
                self.at_root(bb).plain_rules(),
                now.tt,
            )
            &&& completed > 0 ==> score == plain_value(self.at_root(bb).plain_rules(), bb, completed, 0) && -PLAIN_LIMIT
                <= score <= PLAIN_LIMIT
        }
    }

    /// What deepening up to `completed` whole iterations finds. None of them
    /// gives nothing. Where the table held nothing on the root, a side that can
    /// act gets a move, and a win on the spot is taken after one iteration.
    pub open spec fn finds(&self, bb: BitBoard, completed: int, score: i32, mv: Option<BitMove>) -> bool {
        &&& Self::result_ok(bb, (score, mv))
        &&& completed == 0 ==> score == 0 && mv is None
        &&& completed >= 1 && self.tt.find(bb.hash) is None && bb@.winner() is None && self.knobs.iir_depth > 1 ==> {
            &&& can_act(bb) ==> mv is Some
            &&& keyed(bb) && self.keyed_table() && (exists|m: BitMove| #[trigger]
                self.takes(seq![bb.hash], bb, m)) ==> completed == 1 && as_good(
                bb.current_player,
                score as int,
                win_score_of(bb.current_player, 1),
            )
        }
    }

    /// The engine is `end` but for its counters and the depth it reached.
    pub open spec fn finishes_as(&self, end: Self) -> bool {
        *self == (BitBoardEngine {
            last_completed_depth: self.last_completed_depth,
            nodes_searched: self.nodes_searched,
            quiesce_nodes: self.quiesce_nodes,
            cutoffs: self.cutoffs,
            tt_hits: self.tt_hits,
            ..end
        })
    }

    /// Prepares a search from a root: counters, killers, aged histories, an
    /// empty path and the root's accumulators.
    fn begin(&mut self, bb: &BitBoard, first: bool)
        requires
            old(self).wf(),
            bb.wf(),
        ensures
            old(self).searched_from(*final(self), *bb),
            final(self).search_stopped == old(self).search_stopped,
            final(self).tt.clusters == old(self).tt.clusters,
            final(self).eval_cache == old(self).eval_cache,
            final(self).tt.generation == if first {
                (old(self).tt.generation + 1) % 256
            } else {
                old(self).tt.generation as int
            },
            final(self).nodes_searched == 0,
            final(self).cutoffs == 0,
            final(self).tt_hits == 0,
            final(self).quiesce_nodes == 0,
            no_killers(final(self).killer_moves@),
            final(self).nodes_since_check == old(self).nodes_since_check,
            old(self).begins_search(*final(self), *bb, first),
    {
        proof {
            reveal(BitBoardEngine::begins_search);
        }
        self.nodes_searched = 0;
        self.cutoffs = 0;
        self.tt_hits = 0;
        self.quiesce_nodes = 0;
        if first {
            self.tt.new_search();
        }
        self.killer_moves = fresh_killers();
        self.path_hashes = Vec::new();
        self.root_player = bb.current_player;
        proof {
            assert(self.wf()) by {
                reveal(BitBoardEngine::tables_ok);
            }
            assert(board_ok(*bb, 0)) by {
                reveal(board_ok);
            }
        }
        self.age_history();
        self.enter_root(bb, Ghost(0));
    }

    /// Searches a root with a window around the previous score. Where the score
    /// falls outside, only the failed side is widened, twice as far each time.
    fn search_with_aspiration(
        &mut self,
        bb: &BitBoard,
        depth: u8,
        prev_score: Option<i32>,
        Ghost(reach): Ghost<int>,
    ) -> (r: (i32, Option<BitMove>))
        requires
            old(self).wf(),
            searchable(*bb),
            prev_score matches Some(s) ==> score_ok(s as int),
        ensures
            old(self).searched_from(*final(self), *bb),
            old(self).stays_true(*final(self), *bb),
            old(self).proves_at(*final(self), *bb, r.0 as int),
            old(self).move_keyed(*bb, r),
            prev_score is None ==> old(self).remembered(*final(self), *bb, 0, r),
            Self::result_ok(*bb, r),
            old(self).search_stopped ==> r.0 == 0 && r.1 is None,
            old(self).stops_in_time(*final(self)),
            old(self).aspirates(*final(self), *bb, depth as int, prev_score, r),
            prev_score is None && bb@.winner() is Some ==> final(self).nodes_searched <= 1,
            prev_score is None && shallower(old(self).tt.find(bb.hash), depth as int) && !final(self).search_stopped ==> shallower(
                final(self).tt.find(bb.hash),
                depth + 1,
            ),
            (prev_score matches Some(s) ==> -PLAIN_LIMIT <= s <= PLAIN_LIMIT) ==> old(self).finds_plainly(
                *final(self),
                *bb,
                depth,
                reach,
                prev_score is None,
                r,
            ),
            prev_score is None ==> old(self).answers(
                *bb,
                depth,
                (i32::MIN + 1) as i32,
                (i32::MAX - 1) as i32,
                seq![bb.hash],
                r,
                final(self).search_stopped,
            ),
    {
        self.begin(bb, prev_score.is_none());
        proof {
            assert(board_ok(*bb, 280)) by {
                reveal(board_ok);
            }
        }
        let ghost begun = *self;
        let maximizing: bool = bb.current_player == Player::White;
        let asp_delta: i32 = if self.knobs.asp_delta > 1 { self.knobs.asp_delta } else { 1 };
        let mut alpha: i32 = i32::MIN + 1;
        let mut beta: i32 = i32::MAX - 1;
        if let Some(score) = prev_score {
            alpha = lower_bound(score, asp_delta);
            beta = upper_bound(score, asp_delta);
        }
        let mut delta: i32 = asp_delta;
        let mut r: (i32, Option<BitMove>) = (0, None);
        let mut done: bool = false;
        let ghost mut tried: Seq<Miss<L>> = Seq::empty();
        let ghost mut last = *self;
        proof {
            lemma_misses_start(begun, *bb, depth as int, prev_score);
            assert(old(self).fixed().knobs == begun.fixed().knobs);
        }
        let ghost t = SearchTree { root: *bb, depth: depth as int, reach };
        let ghost exact = old(self).at_root(*bb).searches_plainly(t) && keyed(*bb) && known_by_hash(
            old(self).weights,
            *bb,
            depth + 7,
        ) && (prev_score matches Some(s) ==> -PLAIN_LIMIT <= s <= PLAIN_LIMIT);
        let ghost rules = old(self).at_root(*bb).plain_rules();
        proof {
            assert(old(self).fixed().nnue == begun.fixed().nnue && old(self).fixed().weights == begun.fixed().weights);
            lemma_true_same(*old(self), begun);
            lemma_same_answers(*old(self), begun);
            let rooted = old(self).at_root(*bb);
            assert(rooted.fixed() == old(self).fixed());
            assert(rooted.plain() == old(self).plain()) by {
                reveal(BitBoardEngine::honest);
            }
            lemma_plainly_same(rooted, begun, t);
        }
        while !done
            invariant
                misses(begun, last, *bb, depth as int, prev_score, tried, Aim { alpha, beta, delta }),
                !done ==> last == *self,
                prev_score is None ==> tried.len() == 0,
                done ==> visits(last, *self, *bb, depth as int, alpha, beta, r) && alpha < r.0 < beta,
                prev_score is None && done && bb@.winner() is Some ==> self.nodes_searched <= begun.nodes_searched + 1,
                prev_score is None && done && shallower(begun.tt.find(bb.hash), depth as int) && !self.search_stopped
                    ==> shallower(self.tt.find(bb.hash), depth + 1),
                self.wf(),
                begun.keeps(*self),
                begun.path_hashes@ == Seq::<u64>::empty(),
                begun.root_player == bb.current_player,
                begun.stays_true(*self, *bb),
                begun.stays_sound(*self, *bb),
                done ==> begun.proves_at(*self, *bb, r.0 as int),
                done ==> begun.move_keyed(*bb, r),
                done && prev_score is None ==> begun.remembered(*self, *bb, 0, r),
                board_ok(*bb, 280),
                maximizing == (bb.current_player == Player::White),
                !done ==> window_ok(alpha, beta),
                1 <= delta <= 1_000_000_000,
                delta > 1000 && alpha > i32::MIN + 1 ==> delta <= 500_000_000,
                delta > 1000 && alpha > i32::MIN + 1 && beta < i32::MAX - 1 ==> delta <= 250_000_000,
                delta > 1000 && beta < i32::MAX - 1 ==> delta <= 500_000_000,
                prev_score is None && !done ==> alpha == i32::MIN + 1 && beta == i32::MAX - 1 && *self == begun,
                done ==> Self::result_ok(*bb, r) && (begun.search_stopped ==> r.0 == 0 && r.1 is None),
                t == (SearchTree { root: *bb, depth: depth as int, reach }),
                exact ==> keyed(*bb) && known_by_hash(begun.weights, *bb, depth + 7),
                exact && !self.search_stopped ==> self.searches_plainly(t) && self.plain_rules() == rules,
                exact && !self.search_stopped && !done ==> alpha <= PLAIN_LIMIT && beta >= -PLAIN_LIMIT,
                exact && !self.search_stopped && done ==> r.0 == plain_value(rules, *bb, depth as int, 0) && -PLAIN_LIMIT
                    <= r.0 <= PLAIN_LIMIT,
                exact && !self.search_stopped && done && prev_score is None && shallower(
                    begun.tt.find(bb.hash),
                    depth as int,
                ) && depth > 0
                    ==> (r.1 matches Some(m) ==> is_legal(*bb, m) && plain_value(rules, bb.played(m), depth - 1, 1) == r.0),
                done && prev_score is None ==> begun.answers(
                    *bb,
                    depth,
                    (i32::MIN + 1) as i32,
                    (i32::MAX - 1) as i32,
                    seq![bb.hash],
                    r,
                    self.search_stopped,
                ),
            decreases
                    if done {
                        0int
                    } else {
                        1 + (if delta <= 1000 {
                            1001 - delta
                        } else {
                            0int
                        }) + (if alpha > i32::MIN + 1 {
                            1int
                        } else {
                            0int
                        }) + (if beta < i32::MAX - 1 {
                            1int
                        } else {
                            0int
                        })
                    },
        {
            proof {
                assert(Seq::<u64>::empty().push(bb.hash) =~= seq![bb.hash]);
            }
            let ghost before = *self;
            r = self.minimax(bb, depth, alpha, beta, maximizing, Ghost(280), Ghost(t));
            let score: i32 = r.0;
            proof {
                if score <= alpha || score >= beta {
                    let s = Miss { from: before, aim: Aim { alpha, beta, delta }, found: r };
                    lemma_misses_more(begun, *self, *bb, depth as int, prev_score, tried, s);
                    tried = tried.push(s);
                    last = *self;
                }
                if exact && !self.search_stopped {
                    assert(before.fixed() == begun.fixed());
                    assert(before.fixed().weights == begun.fixed().weights);
                    lemma_root_plainly(before, *self, t, *bb, depth as int, alpha as int, beta as int, r);
                    lemma_rules_kept(before, *self);
                }
            }
            if score <= alpha {
                delta = delta * 2;
                alpha = if delta > 1000 { i32::MIN + 1 } else { lower_bound(score, delta) };
            } else if score >= beta {
                delta = delta * 2;
                beta = if delta > 1000 { i32::MAX - 1 } else { upper_bound(score, delta) };
            } else {
                done = true;
                proof {
                    if keyed(*bb) && begun.sound() {
                        reveal(proves);
                    }
                }
            }
        }
        proof {
            assert(self.path_hashes@ =~= Seq::<u64>::empty());
            assert(begun.tt.find(bb.hash) == old(self).tt.find(bb.hash));
            assert(old(self).aspirates(*self, *bb, depth as int, prev_score, r)) by {
                reveal(BitBoardEngine::aspirates);
                let v = RootSearch { begun, tried, last, aim: Aim { alpha, beta, delta } };
                assert(old(self).begins_search(v.begun, *bb, prev_score is None));
            }
            assert(old(self).stops_in_time(*self)) by {
                reveal(headway);
                reveal(BitBoardEngine::tables_ok);
            }
        }
        r
    }
}

impl<L: OutputLayer> BitBoardEngine<L> {
    /// Searches a root to a depth: the score from white's point of view and the
    /// best move. A winning score proves a forced win, and without pruning the
    /// score is the plain minimax value.
    pub fn search(&mut self, bb: &BitBoard, depth: u8) -> (r: (i32, Option<BitMove>))
        requires
            old(self).wf(),
            searchable(*bb),
        ensures
            old(self).searched_from(*final(self), *bb),
            old(self).stays_true(*final(self), *bb),
            old(self).proves_at(*final(self), *bb, r.0 as int),
            old(self).move_keyed(*bb, r),
            old(self).remembered(*final(self), *bb, 0, r),
            Self::result_ok(*bb, r),
            old(self).stops_in_time(*final(self)),
            old(self).aspirates(*final(self), *bb, depth as int, None, r),
            bb@.winner() is Some ==> final(self).nodes_searched <= 1,
            shallower(old(self).tt.find(bb.hash), depth as int) && !final(self).search_stopped ==> shallower(
                final(self).tt.find(bb.hash),
                depth + 1,
            ),
            bb@.winner() is Some && !old(self).search_stopped && old(self).nodes_since_check < 1023
                ==> !final(self).search_stopped,
            old(self).finds_plainly(*final(self), *bb, depth, depth as int, true, r),
            old(self).answers(
                *bb,
                depth,
                (i32::MIN + 1) as i32,
                (i32::MAX - 1) as i32,
                seq![bb.hash],
                r,
                final(self).search_stopped,
            ),
    {
        self.search_within(bb, depth, Ghost(depth as int))
    }

    /// A search to a depth as the first of several up to `reach`.
    pub(crate) fn search_within(&mut self, bb: &BitBoard, depth: u8, Ghost(reach): Ghost<int>) -> (r: (
        i32,
        Option<BitMove>,
    ))
        requires
            old(self).wf(),
            searchable(*bb),
        ensures
            old(self).searched_from(*final(self), *bb),
            old(self).stays_true(*final(self), *bb),
            old(self).proves_at(*final(self), *bb, r.0 as int),
            old(self).move_keyed(*bb, r),
            old(self).remembered(*final(self), *bb, 0, r),
            Self::result_ok(*bb, r),
            old(self).stops_in_time(*final(self)),
            old(self).aspirates(*final(self), *bb, depth as int, None, r),
            bb@.winner() is Some ==> final(self).nodes_searched <= 1,
            shallower(old(self).tt.find(bb.hash), depth as int) && !final(self).search_stopped ==> shallower(
                final(self).tt.find(bb.hash),
                depth + 1,
            ),
            old(self).finds_plainly(*final(self), *bb, depth, reach, true, r),
            old(self).answers(
                *bb,
                depth,
                (i32::MIN + 1) as i32,
                (i32::MAX - 1) as i32,
                seq![bb.hash],
                r,
                final(self).search_stopped,
            ),
    {
        self.search_with_aspiration(bb, depth, None, Ghost(reach))
    }

    /// Searches deeper and deeper, and returns the last whole iteration's score
    /// and the last move found. Ends at `max_depth`, when stopped, or with a
    /// proven win for the side to move.
    pub fn search_iterative(&mut self, bb: &BitBoard, max_depth: u8) -> (r: (i32, Option<BitMove>))
        requires
            old(self).wf(),
            searchable(*bb),
        ensures
            final(self).wf(),
            final(self).fixed() == old(self).fixed(),
            final(self).deadline == old(self).deadline,
            old(self).search_stopped ==> final(self).search_stopped,
            old(self).stays_true(*final(self), *bb),
            old(self).proves_at(*final(self), *bb, r.0 as int),
            old(self).move_keyed(*bb, r),
            final(self).last_completed_depth <= max_depth,
            old(self).search_stopped ==> final(self).last_completed_depth == 0,
            final(self).search_stopped || final(self).last_completed_depth == max_depth || proven_win(
                bb.current_player,
                r.0 as int,
            ),
            final(self).last_completed_depth == 1 ==> old(self).answers(
                *bb,
                1,
                (i32::MIN + 1) as i32,
                (i32::MAX - 1) as i32,
                seq![bb.hash],
                r,
                false,
            ),
            old(self).finds(*bb, final(self).last_completed_depth as int, r.0, r.1),
            old(self).deepened_plainly(*bb, max_depth as int, final(self).last_completed_depth as int, r.0 as int),
            exists|iterations: Seq<Iteration<L>>, end: Self|
                #![trigger deepens(*old(self), iterations, end, *bb, r)]
                deepens(*old(self), iterations, end, *bb, r) && iterations.len() == final(self).last_completed_depth && (!final(
                    self).search_stopped ==> final(self).finishes_as(end) && counted(iterations) == (
                    final(self).nodes_searched as int,
                    final(self).quiesce_nodes as int,
                    final(self).cutoffs as int,
                    final(self).tt_hits as int,
                )),
            !old(self).search_stopped && final(self).search_stopped ==> final(self).nodes_searched + 2 * (final(
                self).last_completed_depth + 1) >= 1024 - old(self).nodes_since_check,
    {
        let ghost mut iterations: Seq<Iteration<L>> = Seq::empty();
        let ghost mut end = *self;
        let mut best_score: i32 = 0;
        let mut best_move: Option<BitMove> = None;
        let mut total_nodes: u64 = 0;
        let mut total_quiesce: u64 = 0;
        let mut total_cutoffs: u64 = 0;
        let mut total_tt_hits: u64 = 0;
        let mut completed: u8 = 0;
        let mut over: bool = false;
        proof {
            lemma_proves_mild(bb.hash, 0, 0, i32::MIN + 1, i32::MAX - 1);
            lemma_deepen_start(*self, *bb, max_depth as int);
            lemma_deepens_start(*self, *bb);
        }
        while !over && completed < max_depth
            invariant
                deepens(*old(self), iterations, end, *bb, (best_score, best_move)),
                iterations.len() == completed,
                !over || !self.search_stopped ==> *self == end && counted(iterations) == (
                    total_nodes as int,
                    total_quiesce as int,
                    total_cutoffs as int,
                    total_tt_hits as int,
                ),
                !old(self).search_stopped && self.search_stopped ==> over && total_nodes + 2 * (completed + 1) >= 1024 - old(
                    self).nodes_since_check,
                !old(self).search_stopped && !self.search_stopped ==> self.nodes_since_check <= old(
                    self).nodes_since_check + total_nodes + 2 * completed,
                self.wf(),
                self.fixed() == old(self).fixed(),
                self.deadline == old(self).deadline,
                old(self).search_stopped ==> self.search_stopped,
                old(self).stays_true(*self, *bb),
                old(self).proves_at(*self, *bb, best_score as int),
                old(self).move_keyed(*bb, (best_score, best_move)),
                old(self).goes_on_plainly(*self, *bb, max_depth as int, completed as int, best_score as int),
                searchable(*bb),
                completed <= max_depth,
                score_ok(best_score as int),
                old(self).search_stopped ==> completed == 0,
                completed == 0 && !over ==> self.tt.clusters == old(self).tt.clusters && self.search_stopped == old(
                    self).search_stopped && self.eval_cache == old(self).eval_cache,
                over ==> self.search_stopped || proven_win(bb.current_player, best_score as int),
                !over && completed > 0 ==> !proven_win(bb.current_player, best_score as int),
                completed == 1 ==> old(self).answers(
                    *bb,
                    1,
                    (i32::MIN + 1) as i32,
                    (i32::MAX - 1) as i32,
                    seq![bb.hash],
                    (best_score, best_move),
                    false,
                ),
                old(self).finds(*bb, completed as int, best_score, best_move),
            decreases
                    if over {
                        0int
                    } else {
                        1 + max_depth - completed
                    },
        {
            let ghost before = *self;
            proof {
                assert(self.nodes_since_check < 1024) by {
                    reveal(BitBoardEngine::tables_ok);
                }
            }
            if self.should_stop() {
                proof {
                    lemma_true_same(before, *self);
                    lemma_deepen_same(*old(self), before, *self, *bb, max_depth as int, completed as int, best_score as int);
                }
                over = true;
            } else {
                proof {
                    lemma_true_same(before, *self);
                    lemma_deepen_same(*old(self), before, *self, *bb, max_depth as int, completed as int, best_score as int);
                    if completed == 0 {
                        assert(old(self).fixed().nnue == self.fixed().nnue && old(self).fixed().weights
                            == self.fixed().weights);
                        lemma_true_same(*old(self), *self);
                        lemma_same_answers(*old(self), *self);
                        lemma_takes_fixed(*old(self), *self, seq![bb.hash], *bb);
                    }
                }
                let depth: u8 = completed + 1;
                let prev: Option<i32> = if completed == 0 { None } else { Some(best_score) };
                let ghost deepening = *self;
                let (score, mv): (i32, Option<BitMove>) = self.search_with_aspiration(
                    bb,
                    depth,
                    prev,
                    Ghost(max_depth as int),
                );
                total_nodes = total_nodes.saturating_add(self.nodes_searched);
                total_quiesce = total_quiesce.saturating_add(self.quiesce_nodes);
                total_cutoffs = total_cutoffs.saturating_add(self.cutoffs);
                total_tt_hits = total_tt_hits.saturating_add(self.tt_hits);
                let ghost searched = *self;
                proof {
                    lemma_deepen_step(
                        *old(self),
                        deepening,
                        searched,
                        *bb,
                        max_depth,
                        completed,
                        best_score as int,
                        prev is None,
                        false,
                        (score, mv),
                    );
                }
                proof {
                    assert(self.nodes_since_check < 1024) by {
                        reveal(BitBoardEngine::tables_ok);
                    }
                }
                let stop: bool = self.should_stop();
                proof {
                    if !stop {
                        let s = Iteration {
                            from: before,
                            ready: deepening,
                            searched,
                            before: (best_score, best_move),
                            found: (score, mv),
                        };
                        lemma_deepens_more(*old(self), iterations, *self, *bb, s);
                        iterations = iterations.push(s);
                        end = *self;
                    }
                    lemma_true_same(searched, *self);
                    if !searched.search_stopped {
                        lemma_deepen_same(*old(self), searched, *self, *bb, max_depth as int, depth as int, score as int);
                    }
                    lemma_deepen_stopped(
                        *old(self),
                        deepening,
                        *self,
                        *bb,
                        max_depth as int,
                        completed as int,
                        best_score as int,
                    );
                }
                if stop {
                    over = true;
                } else {
                    best_score = score;
                    if mv.is_some() {
                        best_move = mv;
                    }
                    completed = depth;
                    over = is_proven_win(bb.current_player, score);
                }
            }
        }
        let ghost deepened = *self;
        self.last_completed_depth = completed;
        self.nodes_searched = total_nodes;
        self.quiesce_nodes = total_quiesce;
        self.cutoffs = total_cutoffs;
        self.tt_hits = total_tt_hits;
        proof {
            assert(self.wf()) by {
                reveal(BitBoardEngine::tables_ok);
            }
            lemma_true_same(deepened, *self);
            reveal(BitBoardEngine::goes_on_plainly);
        }
        (best_score, best_move)
    }

    /// Searches deeper and deeper until the time is up. Also returns the last
    /// whole iteration's depth.
    pub fn search_timed(&mut self, bb: &BitBoard, time_ms: u64) -> (r: (i32, Option<BitMove>, u8))
        requires
            old(self).wf(),
            searchable(*bb),
        ensures
            final(self).wf(),
            final(self).fixed() == old(self).fixed(),
            final(self).deadline is None,
            !final(self).search_stopped,
            r.2 == final(self).last_completed_depth,
            r.2 <= TIMED_MAX_DEPTH,
            old(self).stays_true(*final(self), *bb),
            old(self).proves_at(*final(self), *bb, r.0 as int),
            old(self).finds(*bb, r.2 as int, r.0, r.1),
            old(self).deepened_plainly(*bb, TIMED_MAX_DEPTH as int, r.2 as int, r.0 as int),
            r.2 == TIMED_MAX_DEPTH || proven_win(bb.current_player, r.0 as int) || final(self).nodes_searched + 2 * (r.2
                + 1) >= 1024,
            exists|begun: Self, iterations: Seq<Iteration<L>>, end: Self|
                #![trigger deepens(begun, iterations, end, *bb, (r.0, r.1))]
                {
                    &&& begun == (BitBoardEngine {
                        deadline: begun.deadline,
                        nodes_since_check: 0,
                        search_stopped: false,
                        ..*old(self)
                    })
                    &&& deepens(begun, iterations, end, *bb, (r.0, r.1))
                    &&& iterations.len() == r.2
                },
    {
        self.deadline = Some(Deadline::from_now(time_ms));
        self.nodes_since_check = 0;
        self.search_stopped = false;
        proof {
            assert(self.wf()) by {
                reveal(BitBoardEngine::tables_ok);
            }
            lemma_takes_fixed(*old(self), *self, seq![bb.hash], *bb);
            lemma_true_same(*old(self), *self);
            lemma_deepens_same(*old(self), *self, *bb, TIMED_MAX_DEPTH as int);
        }
        let ghost begun = *self;
        let (score, mv): (i32, Option<BitMove>) = self.search_iterative(bb, TIMED_MAX_DEPTH);
        let depth_reached: u8 = self.last_completed_depth;
        let ghost timed = *self;
        self.deadline = None;
        self.search_stopped = false;
        proof {
            assert(self.wf()) by {
                reveal(BitBoardEngine::tables_ok);
            }
            lemma_true_same(timed, *self);
        }
        (score, mv, depth_reached)
    }
}

/// What a search from the root finds, in a window or beside it.
proof fn lemma_root_plainly<L: OutputLayer>(
    a: BitBoardEngine<L>,
    b: BitBoardEngine<L>,
    t: SearchTree,
    bb: BitBoard,
    depth: int,
    alpha: int,
    beta: int,
    r: (i32, Option<BitMove>),
)
    requires
        a.path_hashes@ == Seq::<u64>::empty(),
        a.searches_plainly(t),
        t.root == bb,
        t.depth == depth,
        depth >= 0,
        keyed(bb),
        known_by_hash(a.weights, bb, depth + 7),
        !b.search_stopped,
        alpha <= PLAIN_LIMIT,
        beta >= -PLAIN_LIMIT,
        a.plainly(b, t, a.path_hashes@, bb, depth, alpha, beta, r.0 as int),
        a.plain_reach(b, t, bb, depth, alpha, beta, r),
    ensures
        b.searches_plainly(t),
        -PLAIN_LIMIT <= r.0 <= PLAIN_LIMIT,
        bounds(r.0 as int, plain_value(a.plain_rules(), bb, depth, 0), alpha, beta),
        shallower(a.tt.find(bb.hash), depth) && depth > 0 && alpha < r.0 < beta ==> (r.1 matches Some(m) ==> is_legal(bb, m)
            && plain_value(a.plain_rules(), bb.played(m), depth - 1, 1) == r.0),
{
    lemma_plain_setup(a, t);
    lemma_tree_root(t);
    assert(a.stands_in(t, a.path_hashes@, bb, depth)) by {
        reveal(BitBoardEngine::stands_in);
        reveal(SearchTree::holds_path);
    }
    reveal(BitBoardEngine::plainly);
    reveal(BitBoardEngine::plain_reach);
}

proof fn lemma_rules_kept<L: OutputLayer>(a: BitBoardEngine<L>, b: BitBoardEngine<L>)
    requires
        a.fixed() == b.fixed(),
        a.root_player == b.root_player,
    ensures
        a.plain_rules() == b.plain_rules(),
        a.weights == b.weights,
        a.unpruned() == b.unpruned(),
{
    let fa = a.fixed();
    let fb = b.fixed();
    assert(fa.weights == fb.weights && fa.contempt == fb.contempt && fa.knobs == fb.knobs && fa.tablebase == fb.tablebase
        && fa.game_history == fb.game_history && fa.no_progress_limit == fb.no_progress_limit && fa.lmr_table == fb.lmr_table);
}

pub(crate) proof fn lemma_deepen_start<L: OutputLayer>(e: BitBoardEngine<L>, bb: BitBoard, max_depth: int)
    ensures
        e.goes_on_plainly(e, bb, max_depth, 0, 0),
{
    reveal(BitBoardEngine::goes_on_plainly);
    reveal(BitBoardEngine::deepens_plainly);
    reveal(BitBoardEngine::honest);
}

/// What deepening can rely on depends on the settings, entries and cache only.
proof fn lemma_deepens_same<L: OutputLayer>(a: BitBoardEngine<L>, b: BitBoardEngine<L>, bb: BitBoard, max_depth: int)
    requires
        a.fixed() == b.fixed(),
        a.tt == b.tt,
        a.eval_cache == b.eval_cache,
    ensures
        a.deepens_plainly(bb, max_depth) ==> b.deepens_plainly(bb, max_depth),
        a.at_root(bb).plain_rules() == b.at_root(bb).plain_rules(),
{
    reveal(BitBoardEngine::deepens_plainly);
    reveal(BitBoardEngine::honest);
    let x = a.at_root(bb);
    let y = b.at_root(bb);
    assert(x.fixed() == a.fixed());
    assert(y.fixed() == b.fixed());
    lemma_rules_kept(x, y);
    assert(a.fixed().contempt == b.fixed().contempt && a.fixed().nnue == b.fixed().nnue);
}

proof fn lemma_deepen_same<L: OutputLayer>(
    first: BitBoardEngine<L>,
    a: BitBoardEngine<L>,
    b: BitBoardEngine<L>,
    bb: BitBoard,
    max_depth: int,
    completed: int,
    score: int,
)
    requires
        first.goes_on_plainly(a, bb, max_depth, completed, score),
        a.fixed() == b.fixed(),
        a.tt.clusters == b.tt.clusters,
        a.eval_cache == b.eval_cache,
        a.plain() ==> b.plain(),
        a.search_stopped ==> b.search_stopped,
    ensures
        first.goes_on_plainly(b, bb, max_depth, completed, score),
{
    reveal(BitBoardEngine::goes_on_plainly);
    reveal(table_tells);
    let fa = a.fixed();
    let fb = b.fixed();
    assert(fa.contempt == fb.contempt && fa.nnue == fb.nnue && fa.weights == fb.weights);
}

/// A stopped iteration keeps the last result.
proof fn lemma_deepen_stopped<L: OutputLayer>(
    first: BitBoardEngine<L>,
    a: BitBoardEngine<L>,
    b: BitBoardEngine<L>,
    bb: BitBoard,
    max_depth: int,
    completed: int,
    score: int,
)
    requires
        first.goes_on_plainly(a, bb, max_depth, completed, score),
    ensures
        b.search_stopped ==> first.goes_on_plainly(b, bb, max_depth, completed, score),
{
    reveal(BitBoardEngine::goes_on_plainly);
}

/// A whole iteration finds the plain value of its depth.
proof fn lemma_deepen_step<L: OutputLayer>(
    first: BitBoardEngine<L>,
    a: BitBoardEngine<L>,
    b: BitBoardEngine<L>,
    bb: BitBoard,
    max_depth: u8,
    completed: u8,
    score: int,
    fresh: bool,
    whole: bool,
    r: (i32, Option<BitMove>),
)
    requires
        whole ==> a.finds_plainly(b, bb, (completed + 1) as u8, max_depth as int, true, r),
        first.goes_on_plainly(a, bb, max_depth as int, completed as int, score),
        completed < max_depth,
        first.fixed() == a.fixed(),
        a.fixed() == b.fixed(),
        b.root_player == bb.current_player,
        a.search_stopped ==> b.search_stopped,
        fresh == (completed == 0),
        !fresh ==> ((-PLAIN_LIMIT <= score <= PLAIN_LIMIT) ==> a.finds_plainly(
            b,
            bb,
            (completed + 1) as u8,
            max_depth as int,
            fresh,
            r,
        )),
        fresh ==> a.finds_plainly(b, bb, (completed + 1) as u8, max_depth as int, fresh, r),
    ensures
        first.goes_on_plainly(b, bb, max_depth as int, completed + 1, r.0 as int) || b.search_stopped,
        whole && shallower(a.tt.find(bb.hash), completed + 1) && !b.search_stopped ==> first.moves_plainly(
            bb,
            max_depth as int,
            completed + 1,
            r.0 as int,
            r.1,
        ),
{
    reveal(BitBoardEngine::goes_on_plainly);
    if first.deepens_plainly(bb, max_depth as int) && !b.search_stopped {
        let e = a.at_root(bb);
        let f = first.at_root(bb);
        assert(e.fixed() == a.fixed());
        assert(f.fixed() == first.fixed());
        lemma_rules_kept(f, e);
        lemma_rules_kept(e, b);
        let t = tree_of(bb, completed as int, max_depth as int);
        let u = tree_of(bb, completed + 1, max_depth as int);
        assert(e.searches_plainly(u)) by {
            reveal(BitBoardEngine::searches_plainly);
            reveal(BitBoardEngine::deepens_plainly);
            reveal(BitBoardEngine::honest);
            lemma_deeper_tells(t, u, e.plain_rules(), a.tt);
            assert(tree_of(bb, completed + 1, max_depth as int).is_told(f.plain_rules()));
        }
        assert(keyed(bb) && known_by_hash(a.weights, bb, completed + 1 + 7)) by {
            reveal(BitBoardEngine::deepens_plainly);
            assert(first.fixed().weights == a.fixed().weights);
            lemma_known_less(a.weights, bb, max_depth + 7, completed + 8);
        }
        lemma_plain_setup(b, u);
        assert(table_tells(u, b.plain_rules(), b.tt));
        assert(f.plain_rules() == b.plain_rules());
    }
}

/// The same of an iteration that searches with the whole window.
pub(crate) proof fn lemma_deepen_again<L: OutputLayer>(
    first: BitBoardEngine<L>,
    a: BitBoardEngine<L>,
    b: BitBoardEngine<L>,
    bb: BitBoard,
    max_depth: u8,
    completed: u8,
    score: int,
    r: (i32, Option<BitMove>),
)
    requires
        first.goes_on_plainly(a, bb, max_depth as int, completed as int, score),
        completed < max_depth,
        first.fixed() == a.fixed(),
        a.fixed() == b.fixed(),
        b.root_player == bb.current_player,
        a.search_stopped ==> b.search_stopped,
        a.finds_plainly(b, bb, (completed + 1) as u8, max_depth as int, true, r),
    ensures
        b.search_stopped ==> first.goes_on_plainly(b, bb, max_depth as int, completed as int, score),
        !b.search_stopped ==> first.goes_on_plainly(b, bb, max_depth as int, completed + 1, r.0 as int),
        shallower(a.tt.find(bb.hash), completed + 1) && !b.search_stopped ==> first.moves_plainly(
            bb,
            max_depth as int,
            completed + 1,
            r.0 as int,
            r.1,
        ),
{
    if b.search_stopped {
        lemma_deepen_stopped(first, a, b, bb, max_depth as int, completed as int, score);
    } else {
        lemma_deepen_step(first, a, b, bb, max_depth, completed, score, completed == 0, true, r);
    }
}

/// An engine that nothing has been searched with believes in no win that is not
/// there, if its settings are mild, its cache is, and its endgame tables hold no
/// other.
pub proof fn law_fresh_engine_is_sound<L: OutputLayer>(e: BitBoardEngine<L>)
    requires
        e.is_fresh(),
        e.mild_settings(),
        e.true_tables(),
        mild_cache(e.eval_cache),
    ensures
        e.sound(),
{
    reveal(BitBoardEngine::sound);
    assert forall|i: int, k: int| 0 <= i < e.tt.clusters@.len() && 0 <= k < 3 implies slot_true(
        #[trigger] e.tt.clusters@[i].entries@[k],
    ) by {
        assert(e.tt.clusters@[i].is_empty());
    }
}

/// With everything switched off that leaves out moves or depth, an engine that
/// nothing has been searched with finds plain minimax values at every depth, as
/// far as hashes tell the positions.
pub proof fn law_unpruned_engine_searches_plainly<L: OutputLayer>(e: BitBoardEngine<L>, bb: BitBoard, max_depth: int)
    requires
        e.is_fresh(),
        e.unpruned(),
        e.calm(),
        e.plain(),
        keyed(bb),
        known_by_hash(e.weights, bb, max_depth + 7),
        0 <= max_depth <= 255,
        forall|d: int| 0 <= d <= max_depth ==> #[trigger] tree_of(bb, d, max_depth).is_told(e.at_root(bb).plain_rules()),
    ensures
        e.deepens_plainly(bb, max_depth),
        e.at_root(bb).searches_plainly(tree_of(bb, max_depth, max_depth)),
{
    let a = e.at_root(bb);
    lemma_empty_tells(tree_of(bb, 0, max_depth), a.plain_rules(), e.tt);
    lemma_empty_tells(tree_of(bb, max_depth, max_depth), a.plain_rules(), e.tt);
    assert(a.plain()) by {
        reveal(BitBoardEngine::honest);
    }
    reveal(BitBoardEngine::deepens_plainly);
    reveal(BitBoardEngine::searches_plainly);
    assert(tree_of(bb, max_depth, max_depth).is_told(a.plain_rules()));
}

/// An engine that nothing has been searched with knows nothing false: its table
/// is empty, and its evaluations are plain if its cache holds no position.
pub proof fn law_fresh_engine<L: OutputLayer>(e: BitBoardEngine<L>)
    requires
        e.is_fresh(),
        e.nnue is None,
        forall|b: BitBoard| #[trigger] keyed(b) ==> e.eval_cache.find(b.hash) is None,
    ensures
        e.keyed_table(),
        e.plain(),
{
    reveal(BitBoardEngine::keyed_table);
    reveal(BitBoardEngine::honest);
    assert forall|i: int, k: int| 0 <= i < e.tt.clusters@.len() && 0 <= k < 3 implies slot_keyed(
        #[trigger] e.tt.clusters@[i].entries@[k],
    ) by {
        assert(e.tt.clusters@[i].is_empty());
    }
}

} // verus!
