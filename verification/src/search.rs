//! Alpha-beta search with a table of positions, pruning and iterative
//! deepening.
use vstd::prelude::*;
use crate::bitboard::BitBoard;
use crate::bitmove::BitMove;
use crate::board::Player;
use crate::engine::{
    entry_ok, legal_for_hash, score_ok, slot_ok, table_ok, within, BitBoardEngine, OutputLayer, SCORE_LIMIT, WIN_BOUND,
    WIN_SCORE,
};
use crate::engine_state::{headway, lemma_headway, tells_eval, MILD_EVAL};
use crate::forced::{
    all_shown, forced, lemma_entry_proves, lemma_proves_end, lemma_proves_mild, lemma_proves_null, lemma_proves_wider,
    lemma_shown_proves, lemma_shown_skip, lemma_shown_start, lemma_shown_step, lemma_slot_true, lemma_sound_cache,
    lemma_sound_entry, lemma_sound_mild, lemma_sound_same, proves, shown, slot_true,
};
use crate::heuristic::{heuristic_of, EVAL_LIMIT};
use crate::node::{
    all_legal, board_ok, can_act, child_of, from_tt, is_legal, keyed, legal_moves, lemma_keyed_child, lemma_keyed_pass,
    lemma_legal_for_hash, lemma_less_room, passed_turn, to_tt, value_from_tt, value_to_tt, win_score, win_score_of,
    window_ok,
};
use crate::movegen::{has_action, lists_legal};
use crate::ordering::{cont_with, div_trunc, history_with, killers_with, pair_index, trunc_div};
use crate::phase::{is_black_win, is_white_win, win_dist};
use crate::plain_search::{lemma_plain_setup, lemma_table_store, slot_tells, table_tells, PlainRules, SearchTree};
use crate::plain_steps::{
    lemma_child_again, lemma_child_glance, lemma_facts_leave, lemma_full_depth, lemma_goal_at_once, lemma_goal_expanded,
    lemma_goal_judged, lemma_goal_left, lemma_goal_quiet, lemma_goal_stuck, lemma_goal_wider, lemma_goal_won,
    lemma_no_reduction, lemma_nothing_pruned, lemma_tried, lemma_walk_end, lemma_walk_same, lemma_walk_skip,
    lemma_walk_start, lemma_walk_step, lemma_window_entry, lemma_window_same, narrow_enough,
};
use crate::quick_wins::{
    fairly, in_reach, lemma_quick_best, lemma_quick_done, lemma_quick_skip, lemma_quick_start, lemma_quick_step, quick,
};
use crate::quiet::{bounds, known_by_hash, lemma_known_parts, lemma_quiet_ends, quiet_value, QuietRules};
use crate::retrograde::lemma_played_same;
use crate::rules::{goal_row_of, Action, GameState};
use crate::squares::{row_of, BOARD_SIZE, NUM_SQUARES};
use crate::tt::{shallower, stored_in, TTEntry, TTFlag, TranspositionTable};
use crate::walk::{
    blank_expansion, blank_look, depth_kept, expands, lemma_expands, lemma_looks, lemma_looks_expanded, lemma_looks_known,
    lemma_looks_pruned, lemma_looks_quiet, lemma_looks_won, lemma_passes, lemma_prunes, lemma_replies_first,
    lemma_replies_later, lemma_tries, lemma_visits, lemma_visits_at_once, lemma_walks_skip, lemma_walks_start,
    lemma_walks_try, looks, narrowed_by, prunes, replies, tries, visits, walks, Expansion, Glance, Look, Progress, Try,
};

verus! {

/// Margins by depth below which late moves are hopeless.
pub const FUTILITY_MARGINS: [i32; 9] = [0, 80, 160, 250, 350, 450, 600, 750, 950];

/// What a node knows before its moves are searched.
#[derive(Clone, Copy)]
pub struct NodeFacts {
    pub depth: u8,
    pub maximizing: bool,
    /// The distance from the root.
    pub ply: i32,
    /// At most three barrels are left in all.
    pub endgame: bool,
    /// A barrel move is owed after a pail placement.
    pub mid_turn: bool,
    pub static_eval: i32,
    /// The static evaluation with its known error taken off.
    pub corrected: i32,
}

impl NodeFacts {
    pub open spec fn ok(&self) -> bool {
        &&& -EVAL_LIMIT <= self.static_eval <= EVAL_LIMIT
        &&& self.static_eval - 32 <= self.corrected <= self.static_eval + 32
        &&& 0 <= self.ply <= 1_000_000
        &&& self.depth >= 1
    }
}

/// The hash of the position tells how it ended: no game position with another
/// outcome shares it.
pub open spec fn tells_winner(bb: BitBoard) -> bool {
    forall|b: BitBoard| #[trigger] keyed(b) && b.hash == bb.hash ==> b@.winner() == bb@.winner()
}

/// Some unfinished game position with this hash of its own allows the move.
#[verifier::opaque]
pub open spec fn legal_for_key(hash: u64, m: BitMove) -> bool {
    exists|b: BitBoard| #[trigger] keyed(b) && b.hash == hash && b@.winner() is None && b@.legal(m@)
}

/// An entry that comes from a position with its own hash.
pub open spec fn slot_keyed(e: Option<TTEntry>) -> bool {
    e matches Some(x) ==> legal_for_key(x.hash, x.best_move->0)
}

/// A score is for the player at least as good as another.
pub open spec fn as_good(p: Player, a: int, b: int) -> bool {
    match p {
        Player::White => a >= b,
        Player::Black => a <= b,
    }
}

/// At most three barrels are left to score, both sides together.
pub open spec fn few_left(s: GameState) -> bool {
    8 - s.white_scored - s.black_scored <= 3
}

pub open spec fn abs_below(x: i32, n: int) -> bool {
    -n < x < n
}

#[verifier::spinoff_prover]
fn is_abs_below(x: i32, n: i32) -> (r: bool)
    requires
        n > 0,
    ensures
        r == abs_below(x, n as int),
{
    -n < x && x < n
}

impl<L: OutputLayer> BitBoardEngine<L> {
    /// What a part of the search keeps: the settings, the path, the previous
    /// move, and a stop once noticed; a new one takes a round of nodes.
    pub open spec fn carries(&self, after: Self) -> bool {
        &&& after.wf()
        &&& after.prev_move == self.prev_move
        &&& self.keeps(after)
    }

    /// The part of it that holds between two moves of a node too.
    pub open spec fn keeps(&self, after: Self) -> bool {
        &&& after.fixed() == self.fixed()
        &&& after.path_hashes@ == self.path_hashes@
        &&& after.root_player == self.root_player
        &&& after.deadline == self.deadline
        &&& self.search_stopped ==> after.search_stopped
        &&& headway(after.nodes_searched, after.search_stopped, after.nodes_since_check) >= headway(
            self.nodes_searched,
            self.search_stopped,
            self.nodes_since_check,
        )
    }

    /// What a search of no depth leaves alone besides: the table's entries.
    pub open spec fn stays(&self, after: Self) -> bool {
        after.tt.clusters == self.tt.clusters
    }

    /// All entries of the table come from positions with their own hash.
    #[verifier::opaque]
    pub open spec fn keyed_table(&self) -> bool {
        forall|i: int, k: int|
            0 <= i < self.tt.clusters@.len() && 0 <= k < 3 ==> slot_keyed(#[trigger] self.tt.clusters@[i].entries@[k])
    }

    /// What searching a position with its own hash keeps: a table of such
    /// positions, and plain and calm evaluations.
    pub open spec fn stays_true(&self, after: Self, bb: BitBoard) -> bool {
        keyed(bb) ==> {
            &&& self.keyed_table() ==> after.keyed_table()
            &&& self.plain() ==> after.plain()
            &&& self.calm() ==> after.calm()
        }
    }

    /// Searching a position with its own hash brings no win that is not there.
    pub open spec fn stays_sound(&self, after: Self, bb: BitBoard) -> bool {
        keyed(bb) && self.sound() ==> after.sound()
    }

    /// A result with a move on a position that the table knew nothing of is
    /// remembered: the table then finds the move, and the score seen from the
    /// node at distance `ply`.
    pub open spec fn remembered(&self, after: Self, bb: BitBoard, ply: int, r: (i32, Option<BitMove>)) -> bool {
        self.tt.find(bb.hash) is None && r.1 is Some ==> {
            &&& after.tt.find(bb.hash) is Some
            &&& after.tt.find(bb.hash)->0.best_move == r.1
            &&& after.tt.find(bb.hash)->0.score == limited(to_tt(r.0 as int, ply))
        }
    }

    /// What is known of a node's move if the table is keyed.
    pub open spec fn move_keyed(&self, bb: BitBoard, r: (i32, Option<BitMove>)) -> bool {
        keyed(bb) && self.keyed_table() ==> (r.1 matches Some(m) ==> legal_for_key(bb.hash, m))
    }

    /// The margin below alpha, or above beta, at which a shallow node drops
    /// into quiescence.
    pub open spec fn razor_margin(&self, depth: u8) -> int {
        self.knobs.razor_base + self.knobs.razor_slope * depth
    }

    /// Razoring applies: shallow, not an endgame, a whole turn to play, and the
    /// evaluation far outside the window.
    pub open spec fn razors(&self, n: NodeFacts, alpha: i32, beta: i32) -> bool {
        &&& n.depth <= 3
        &&& !n.endgame
        &&& !n.mid_turn
        &&& if n.maximizing {
            n.corrected + self.razor_margin(n.depth) < alpha
        } else {
            n.corrected - self.razor_margin(n.depth) > beta
        }
    }

    #[verifier::spinoff_prover]
    fn should_razor(&self, n: &NodeFacts, alpha: i32, beta: i32) -> (r: bool)
        requires
            self.settings_ok(),
            n.ok(),
        ensures
            r == self.razors(*n, alpha, beta),
            alpha == i32::MIN + 1 && beta == i32::MAX - 1 ==> !r,
    {
        if n.depth > 3 || n.endgame || n.mid_turn {
            return false;
        }
        let d: i32 = n.depth as i32;
        let slope: i32 = self.knobs.razor_slope;
        assert(-600_000_000 <= slope * d <= 600_000_000) by (nonlinear_arith)
            requires
                -200_000_000 <= slope <= 200_000_000,
                0 <= d <= 3,
        ;
        let margin: i32 = self.knobs.razor_base + slope * d;
        if n.maximizing {
            n.corrected + margin < alpha
        } else {
            n.corrected - margin > beta
        }
    }

    /// Reverse futility: the evaluation beats the window by a margin per ply,
    /// and no bound is a win. The score to return, if so.
    pub open spec fn reverse_futility_score(&self, n: NodeFacts, alpha: i32, beta: i32) -> Option<int> {
        let m = self.knobs.rfp_margin * n.depth;
        if self.knobs.rfp_margin > 0 && n.depth <= 8 && !n.endgame && !n.mid_turn && abs_below(n.corrected, 90_000)
            && abs_below(beta, 90_000) && abs_below(alpha, 90_000) {
            if n.maximizing && n.corrected - m >= beta {
                Some(n.corrected - m)
            } else if !n.maximizing && n.corrected + m <= alpha {
                Some(n.corrected + m)
            } else {
                None
            }
        } else {
            None
        }
    }

    #[verifier::spinoff_prover]
    fn reverse_futility(&self, n: &NodeFacts, alpha: i32, beta: i32) -> (r: Option<i32>)
        requires
            self.settings_ok(),
            n.ok(),
        ensures
            match r {
                Some(s) => self.reverse_futility_score(*n, alpha, beta) == Some(s as int) && score_ok(s as int),
                None => self.reverse_futility_score(*n, alpha, beta) is None,
            },
    {
        if self.knobs.rfp_margin > 0 && n.depth <= 8 && !n.endgame && !n.mid_turn && is_abs_below(n.corrected, WIN_BOUND)
            && is_abs_below(beta, WIN_BOUND) && is_abs_below(alpha, WIN_BOUND) {
            let d: i32 = n.depth as i32;
            let rfp: i32 = self.knobs.rfp_margin;
            assert(0 <= rfp * d <= 960_000_000) by (nonlinear_arith)
                requires
                    0 <= rfp <= 120_000_000,
                    0 <= d <= 8,
            ;
            let margin: i32 = rfp * d;
            if n.maximizing && n.corrected - margin >= beta {
                return Some(n.corrected - margin);
            }
            if !n.maximizing && n.corrected + margin <= alpha {
                return Some(n.corrected + margin);
            }
        }
        None
    }

    /// A null move is worth trying: deep enough, not an endgame, a whole turn
    /// to play, no win in sight, no barrel near its goal, and the evaluation
    /// near or beyond the bound.
    pub open spec fn null_move_fits(&self, n: NodeFacts, near_goal: bool, alpha: i32, beta: i32) -> bool {
        &&& n.depth >= 4
        &&& !n.endgame
        &&& !n.mid_turn
        &&& abs_below(n.corrected, 90_000)
        &&& !near_goal
        &&& abs_below(beta, 90_000)
        &&& if n.maximizing {
            n.corrected >= beta - self.knobs.nmp_margin
        } else {
            n.corrected <= alpha + self.knobs.nmp_margin
        }
    }

    #[verifier::spinoff_prover]
    fn null_move_allowed(&self, n: &NodeFacts, bb: &BitBoard, alpha: i32, beta: i32) -> (r: bool)
        requires
            self.settings_ok(),
            n.ok(),
            window_ok(alpha, beta),
        ensures
            r ==> n.depth >= 4 && !n.mid_turn && abs_below(beta, 90_000) && (!n.maximizing ==> n.corrected <= alpha
                + self.knobs.nmp_margin),
            r == self.null_move_fits(*n, bb.near_goal(), alpha, beta),
    {
        let near_goal: bool = bb.has_barrel_near_goal();
        let r: bool = n.depth >= 4 && !n.endgame && !n.mid_turn && is_abs_below(n.corrected, WIN_BOUND) && !near_goal
            && is_abs_below(beta, WIN_BOUND) && if n.maximizing {
            n.corrected >= beta - self.knobs.nmp_margin
        } else {
            n.corrected as i64 <= alpha as i64 + self.knobs.nmp_margin as i64
        };
        assert(r == self.null_move_fits(*n, near_goal, alpha, beta));
        r
    }

    /// The depth of the search after a null move: two or three less and more
    /// for deep nodes and strong evaluations, but at least one.
    pub open spec fn null_depth_of(&self, n: NodeFacts, alpha: i32, beta: i32) -> int {
        let r = (if n.depth >= 6 { 3int } else { 2 }) + (if n.depth >= 8 { 1int } else { 0 }) + (if n.maximizing
            && n.corrected >= beta + self.knobs.nmp_boost_margin {
            1int
        } else {
            0
        }) + (if !n.maximizing && n.corrected <= alpha - self.knobs.nmp_boost_margin {
            1int
        } else {
            0
        });
        let d = n.depth - r - 1;
        if d > 1 {
            d
        } else {
            1
        }
    }

    #[verifier::spinoff_prover]
    fn null_depth(&self, n: &NodeFacts, alpha: i32, beta: i32) -> (r: u8)
        requires
            self.settings_ok(),
            n.ok(),
            n.depth >= 4,
            n.maximizing ==> abs_below(beta, 90_000),
            !n.maximizing ==> -SCORE_LIMIT - 1 <= alpha <= SCORE_LIMIT,
        ensures
            r == self.null_depth_of(*n, alpha, beta),
            1 <= r < n.depth,
    {
        let mut r: i32 = if n.depth >= 6 { 3 } else { 2 };
        if n.depth >= 8 {
            r = r + 1;
        }
        if n.maximizing && n.corrected >= beta + self.knobs.nmp_boost_margin {
            r = r + 1;
        }
        if !n.maximizing && n.corrected <= alpha - self.knobs.nmp_boost_margin {
            r = r + 1;
        }
        let d: i32 = n.depth as i32 - r - 1;
        if d > 1 {
            d as u8
        } else {
            1
        }
    }

    /// Futility: the evaluation is so far outside the window that late quiet
    /// moves cannot matter.
    pub open spec fn futile(&self, n: NodeFacts, alpha: i32, beta: i32) -> bool {
        let base = trunc_div(FUTILITY_MARGINS@[if n.depth < 8 { n.depth as int } else { 8 }] * self.knobs.fut_scale, 100);
        let margin = if n.endgame {
            trunc_div(base, 2)
        } else {
            base
        };
        &&& n.depth <= 8
        &&& !n.mid_turn
        &&& abs_below(n.corrected, 90_000)
        &&& if n.maximizing {
            n.corrected + margin < alpha
        } else {
            n.corrected - margin > beta
        }
    }

    #[verifier::spinoff_prover]
    fn is_futile(&self, n: &NodeFacts, alpha: i32, beta: i32) -> (r: bool)
        requires
            self.settings_ok(),
            n.ok(),
        ensures
            r == self.futile(*n, alpha, beta),
    {
        if n.depth > 8 || n.mid_turn || !is_abs_below(n.corrected, WIN_BOUND) {
            return false;
        }
        let m: i32 = FUTILITY_MARGINS[n.depth as usize];
        let scale: i32 = self.knobs.fut_scale;
        proof {
            let d = n.depth;
            assert(d == 1 || d == 2 || d == 3 || d == 4 || d == 5 || d == 6 || d == 7 || d == 8);
            assert(-2_147_000_000 <= m * scale <= 2_147_000_000) by (nonlinear_arith)
                requires
                    0 <= m <= 950,
                    -2_260_000 <= scale <= 2_260_000,
            ;
        }
        let base: i32 = div_trunc(m * scale, 100);
        let margin: i32 = if n.endgame { div_trunc(base, 2) } else { base };
        if n.maximizing {
            n.corrected + margin < alpha
        } else {
            n.corrected - margin > beta
        }
    }

    /// After this many moves the late quiet ones are skipped.
    pub open spec fn lmp_threshold_of(&self, n: NodeFacts) -> int {
        if self.knobs.lmp_base > 0 && n.depth <= 6 && !n.endgame && !n.mid_turn {
            self.knobs.lmp_base + n.depth * n.depth
        } else {
            usize::MAX as int
        }
    }

    #[verifier::spinoff_prover]
    fn lmp_threshold(&self, n: &NodeFacts) -> (r: usize)
        requires
            self.settings_ok(),
        ensures
            r == self.lmp_threshold_of(*n),
            r >= 1,
    {
        if self.knobs.lmp_base > 0 && n.depth <= 6 && !n.endgame && !n.mid_turn {
            let d: usize = n.depth as usize;
            assert(0 <= d * d <= 36) by (nonlinear_arith)
                requires
                    0 <= d <= 6,
            ;
            self.knobs.lmp_base as usize + d * d
        } else {
            usize::MAX
        }
    }

    /// How much shallower a late move is searched.
    pub open spec fn reduction_of(&self, n: NodeFacts, m: BitMove, searched: int, p: Player) -> int {
        if n.depth < 3 || searched < 2 {
            0
        } else {
            let d = if n.depth < 31 { n.depth as int } else { 31 };
            let k = if searched < 63 { searched } else { 63 };
            let base = self.lmr_table@[d]@[k] as int;
            let by_history = if m.from_code() == 63 {
                base
            } else if row_of(m.to_sq()) == goal_row_of(p) {
                0
            } else {
                let h = self.history@[pair_index(m.from_code(), m.to_sq())];
                let less = if h > self.knobs.lmr_hist_good { if base > 0 { base - 1 } else { 0 } } else { base };
                if h < self.knobs.lmr_hist_bad { if less < 255 { less + 1 } else { 255 } } else { less }
            };
            let late = if n.endgame && by_history > 0 { by_history - 1 } else { by_history };
            if late < n.depth - 2 { late } else { n.depth - 2 }
        }
    }

    #[verifier::spinoff_prover]
    fn reduction(&self, n: &NodeFacts, mv: &BitMove, searched: usize, player: Player) -> (r: u8)
        requires
            within(self.history@, 1296, 0, 10_000),
            mv.valid(),
        ensures
            r == self.reduction_of(*n, *mv, searched as int, player),
            n.depth >= 2 ==> r <= n.depth - 2,
            n.depth < 3 ==> r == 0,
    {
        if n.depth < 3 || searched < 2 {
            return 0;
        }
        let d: usize = if n.depth < 31 { n.depth as usize } else { 31 };
        let k: usize = if searched < 63 { searched } else { 63 };
        let mut r: u8 = self.lmr_table[d][k];
        if let Some(from) = mv.barrel_from() {
            let to: usize = mv.barrel_to() as usize;
            let h: i32 = self.history[from as usize * NUM_SQUARES + to];
            if h > self.knobs.lmr_hist_good {
                r = r.saturating_sub(1);
            }
            if h < self.knobs.lmr_hist_bad {
                r = r.saturating_add(1);
            }
            let goal: usize = match player {
                Player::White => 0,
                Player::Black => BOARD_SIZE - 1,
            };
            if to / BOARD_SIZE == goal {
                r = 0;
            }
        }
        if n.endgame {
            r = r.saturating_sub(1);
        }
        let most: u8 = n.depth - 2;
        if r < most {
            r
        } else {
            most
        }
    }

    /// A quiet late move that pruning skips. Nothing is skipped at the root,
    /// nor while every move searched so far is a proven loss.
    pub open spec fn skips(
        &self,
        n: NodeFacts,
        m: BitMove,
        searched: int,
        best: i32,
        futile: bool,
        threshold: int,
        p: Player,
    ) -> bool {
        &&& n.ply > 0
        &&& if n.maximizing { best >= -WIN_BOUND } else { best <= WIN_BOUND }
        &&& !m.pail_only()
        &&& row_of(m.to_sq()) != goal_row_of(p)
        &&& searched >= threshold || (futile && searched > 0)
    }

    #[verifier::spinoff_prover]
    fn should_skip(
        &self,
        n: &NodeFacts,
        mv: &BitMove,
        searched: usize,
        best: i32,
        futile: bool,
        threshold: usize,
        player: Player,
    ) -> (r: bool)
        requires
            mv.valid(),
        ensures
            r == self.skips(*n, *mv, searched as int, best, futile, threshold as int, player),
    {
        let lost: bool = if n.maximizing { best < -WIN_BOUND } else { best > WIN_BOUND };
        if n.ply <= 0 || lost || mv.is_pail_placement() {
            return false;
        }
        let goal: usize = match player {
            Player::White => 0,
            Player::Black => BOARD_SIZE - 1,
        };
        mv.barrel_to() as usize / BOARD_SIZE != goal && (searched >= threshold || (futile && searched > 0))
    }
}

/// No move is skipped at the root, nor while every move so far is a proven loss
/// for the side to move; a pail placement and a move onto the goal row are never
/// skipped.
#[verifier::spinoff_prover]
pub proof fn law_what_is_never_skipped<L: OutputLayer>(
    e: BitBoardEngine<L>,
    n: NodeFacts,
    m: BitMove,
    searched: int,
    best: i32,
    futile: bool,
    threshold: int,
    p: Player,
)
    ensures
        n.ply == 0 ==> !e.skips(n, m, searched, best, futile, threshold, p),
        n.maximizing && best < -WIN_BOUND ==> !e.skips(n, m, searched, best, futile, threshold, p),
        !n.maximizing && best > WIN_BOUND ==> !e.skips(n, m, searched, best, futile, threshold, p),
        m.pail_only() ==> !e.skips(n, m, searched, best, futile, threshold, p),
        row_of(m.to_sq()) == goal_row_of(p) ==> !e.skips(n, m, searched, best, futile, threshold, p),
{
}

/// In the middle of a turn nothing is pruned before the moves are searched.
#[verifier::spinoff_prover]
pub proof fn law_mid_turn_is_searched<L: OutputLayer>(
    e: BitBoardEngine<L>,
    n: NodeFacts,
    near_goal: bool,
    alpha: i32,
    beta: i32,
)
    requires
        n.mid_turn,
    ensures
        !e.razors(n, alpha, beta),
        e.reverse_futility_score(n, alpha, beta) is None,
        !e.null_move_fits(n, near_goal, alpha, beta),
        !e.futile(n, alpha, beta),
{
}

/// The table entry a probe finds obeys the table's invariant.
#[verifier::spinoff_prover]
proof fn lemma_found_entry(t: TranspositionTable, hash: u64)
    requires
        table_ok(t),
    ensures
        t.find(hash) matches Some(e) ==> entry_ok(e) && e.hash == hash,
{
    let i = t.index_of(hash);
    let c = t.clusters@[i];
    assert(0 <= i < t.clusters@.len());
    assert(slot_ok(t.clusters@[i].entries@[0]));
    assert(slot_ok(t.clusters@[i].entries@[1]));
    assert(slot_ok(t.clusters@[i].entries@[2]));
}

/// A score held within the limit.
pub open spec fn limited(x: int) -> int {
    if x > SCORE_LIMIT {
        SCORE_LIMIT as int
    } else if x < -SCORE_LIMIT {
        -SCORE_LIMIT as int
    } else {
        x
    }
}

#[verifier::spinoff_prover]
fn hold_score(x: i32) -> (r: i32)
    ensures
        r == limited(x as int),
        score_ok(r as int),
{
    if x > SCORE_LIMIT {
        SCORE_LIMIT
    } else if x < -SCORE_LIMIT {
        -SCORE_LIMIT
    } else {
        x
    }
}

/// The corrected error of a bucket after a search of `depth` that found
/// `best` where the evaluation said `eval`.
pub open spec fn corrected_error(old_error: i32, best: i32, eval: i32, depth: u8) -> int {
    let e = old_error + (best - eval) * depth;
    if e > 8192 {
        8192
    } else if e < -8192 {
        -8192
    } else {
        e
    }
}

impl<L: OutputLayer> BitBoardEngine<L> {
    /// Looks the position up; the score is made relative to the root.
    #[verifier::spinoff_prover]
    fn probe_node(&mut self, hash: u64, ply: i32) -> (r: Option<(u8, i32, TTFlag, BitMove)>)
        requires
            old(self).wf(),
            0 <= ply <= 1_000_000,
        ensures
            old(self).carries(*final(self)),
            *final(self) == (BitBoardEngine { tt: final(self).tt, tt_hits: final(self).tt_hits, ..*old(self) }),
            final(self).tt.clusters == old(self).tt.clusters,
            old(self).probes(*final(self), hash),
            match old(self).tt.find(hash) {
                Some(e) => r == Some((e.depth, from_tt(e.score as int, ply as int) as i32, e.flag, e.best_move->0))
                    && e.best_move is Some && score_ok(from_tt(e.score as int, ply as int)) && legal_for_hash(
                    hash,
                    e.best_move->0,
                ),
                None => r is None,
            },
    {
        reveal(BitBoardEngine::tables_ok);
        proof {
            lemma_found_entry(self.tt, hash);
        }
        match self.tt.probe(hash) {
            Some(e) => {
                self.tt_hits = self.tt_hits.saturating_add(1);
                Some((e.depth, value_from_tt(e.score, ply), e.flag, e.best_move.unwrap()))
            },
            None => None,
        }
    }

    /// Stores a node's result, its score relative to the node.
    #[verifier::spinoff_prover]
    fn store_node(&mut self, hash: u64, depth: u8, score: i32, ply: i32, flag: TTFlag, best: BitMove)
        requires
            old(self).wf(),
            0 <= ply <= 1_000_000,
            score_ok(score as int),
            legal_for_hash(hash, best),
        ensures
            old(self).carries(*final(self)),
            *final(self) == (BitBoardEngine { tt: final(self).tt, ..*old(self) }),
            final(self).tt.find(hash) == Some(
                TTEntry {
                    hash,
                    depth,
                    score: limited(to_tt(score as int, ply as int)) as i32,
                    flag,
                    generation: old(self).tt.generation,
                    best_move: Some(best),
                },
            ),
            stored_in(
                old(self).tt,
                final(self).tt,
                TTEntry {
                    hash,
                    depth,
                    score: limited(to_tt(score as int, ply as int)) as i32,
                    flag,
                    generation: old(self).tt.generation,
                    best_move: Some(best),
                },
            ),
            old(self).keyed_table() && legal_for_key(hash, best) ==> final(self).keyed_table(),
            old(self).sound() && slot_true(final(self).tt.find(hash)) ==> final(self).sound(),
            forall|t: SearchTree, p: PlainRules| #[trigger]
                table_tells(t, p, old(self).tt) && slot_tells(t, p, final(self).tt.find(hash)) ==> table_tells(
                    t,
                    p,
                    final(self).tt,
                ),
    {
        reveal(BitBoardEngine::tables_ok);
        let s: i32 = hold_score(value_to_tt(score, ply));
        self.tt.store(hash, depth, s, flag, Some(best));
        proof {
            reveal(stored_in);
            let i = old(self).tt.index_of(hash);
            let c = old(self).tt.clusters@[i];
            let e = TTEntry { hash, depth, score: s, flag, generation: old(self).tt.generation, best_move: Some(best) };
            assert(entry_ok(e));
            assert forall|j: int, k: int| 0 <= j < self.tt.clusters@.len() && 0 <= k < 3 implies slot_ok(
                #[trigger] self.tt.clusters@[j].entries@[k],
            ) by {
                assert(slot_ok(old(self).tt.clusters@[j].entries@[k]));
                if j == i {
                    assert(self.tt.clusters@[i].entries@ == c.entries@.update(
                        crate::tt::slot_for(c, hash, old(self).tt.generation),
                        Some(e),
                    ));
                }
            }
            assert forall|t: SearchTree, p: PlainRules| #[trigger]
                table_tells(t, p, old(self).tt) && slot_tells(t, p, self.tt.find(hash)) implies table_tells(t, p, self.tt) by {
                lemma_table_store(t, p, old(self).tt, self.tt, i, crate::tt::slot_for(c, hash, old(self).tt.generation), e);
            }
            if old(self).sound() && slot_true(Some(e)) {
                lemma_sound_store(*old(self), *self, i, crate::tt::slot_for(c, hash, old(self).tt.generation), e);
            }
            if old(self).keyed_table() && legal_for_key(hash, best) {
                reveal(BitBoardEngine::keyed_table);
                assert forall|j: int, k: int| 0 <= j < self.tt.clusters@.len() && 0 <= k < 3 implies slot_keyed(
                    #[trigger] self.tt.clusters@[j].entries@[k],
                ) by {
                    assert(slot_keyed(old(self).tt.clusters@[j].entries@[k]));
                }
            }
        }
    }

    /// The known error of the evaluation for a hash, in 256ths.
    #[verifier::spinoff_prover]
    fn correction(&self, hash: u64) -> (r: i32)
        requires
            self.wf(),
        ensures
            r == trunc_div(self.correction_history@[hash as int % 16384] as int, 256),
            -32 <= r <= 32,
    {
        reveal(BitBoardEngine::tables_ok);
        let c: i32 = self.correction_history[(hash % 16384) as usize];
        div_trunc(c, 256)
    }

    /// Learns from a search how far the evaluation was off; neither may be a
    /// win.
    #[verifier::spinoff_prover]
    fn learn_correction(&mut self, hash: u64, best: i32, eval: i32, depth: u8)
        requires
            old(self).wf(),
            abs_below(best, 90_000),
            abs_below(eval, 90_000),
        ensures
            old(self).carries(*final(self)),
            *final(self) == (BitBoardEngine { correction_history: final(self).correction_history, ..*old(self) }),
            final(self).correction_history@ == old(self).correction_history@.update(
                hash as int % 16384,
                corrected_error(old(self).correction_history@[hash as int % 16384], best, eval, depth) as i32,
            ),
    {
        reveal(BitBoardEngine::tables_ok);
        let i: usize = (hash % 16384) as usize;
        let diff: i32 = best - eval;
        let d: i32 = depth as i32;
        assert(-180_000 * 255 <= diff * d <= 180_000 * 255) by (nonlinear_arith)
            requires
                -180_000 <= diff <= 180_000,
                0 <= d <= 255,
        ;
        let e: i32 = self.correction_history[i] + diff * d;
        let held: i32 = if e > 8192 {
            8192
        } else if e < -8192 {
            -8192
        } else {
            e
        };
        self.correction_history.set(i, held);
    }

    /// Learns from a move that cut off. Pail placements teach nothing.
    #[verifier::spinoff_prover]
    fn learn_cutoff(&mut self, mv: &BitMove, prev: Option<BitMove>, depth: u8)
        requires
            old(self).wf(),
            mv.valid(),
            prev matches Some(m) ==> m.to_sq() < 36,
        ensures
            old(self).carries(*final(self)),
            final(self).search_stopped == old(self).search_stopped,
            final(self).tt == old(self).tt,
            final(self).eval_cache == old(self).eval_cache,
            *final(self) == (BitBoardEngine {
                killer_moves: final(self).killer_moves,
                history: final(self).history,
                cont_history: final(self).cont_history,
                cutoffs: final(self).cutoffs,
                ..*old(self)
            }),
            final(self).cutoffs == if old(self).cutoffs == u64::MAX {
                u64::MAX as int
            } else {
                old(self).cutoffs + 1
            },
            if mv.pail_only() {
                &&& final(self).killer_moves == old(self).killer_moves
                &&& final(self).history == old(self).history
                &&& final(self).cont_history == old(self).cont_history
            } else {
                &&& final(self).killer_moves@ == killers_with(old(self).killer_moves@, *mv, depth as int)
                &&& final(self).history@ == history_with(old(self).history@, *mv, depth as int)
                &&& match prev {
                    Some(pm) => final(self).cont_history@ == cont_with(old(self).cont_history@, pm, *mv, depth as int),
                    None => final(self).cont_history == old(self).cont_history,
                }
            },
    {
        if !mv.is_pail_placement() {
            self.store_killer(mv, depth as usize);
            self.update_history(mv, depth);
            if let Some(pm) = prev {
                self.update_cont_history(&pm, mv, depth);
            }
        }
        self.cutoffs = self.cutoffs.saturating_add(1);
        proof {
            assert(self.wf()) by {
                reveal(BitBoardEngine::tables_ok);
            }
        }
    }
}

impl<L: OutputLayer> BitBoardEngine<L> {
    /// What is known of a node's result whatever the tables hold.
    pub open spec fn result_ok(bb: BitBoard, r: (i32, Option<BitMove>)) -> bool {
        score_ok(r.0 as int) && (r.1 matches Some(m) ==> legal_for_hash(bb.hash, m))
    }

    /// A position reached over `path` is judged by itself: it has not been
    /// seen before, there has been progress, and no table knows it.
    pub open spec fn counts(&self, path: Seq<u64>, bb: BitBoard) -> bool {
        &&& !path.contains(bb.hash)
        &&& !self.game_history@.contains(bb.hash)
        &&& self.no_progress_limit == 0 || bb.halfmove_clock < self.no_progress_limit
        &&& self.table_value(bb) is None
    }

    /// The move wins the game on the spot: it brings the last barrel home, and
    /// the resulting position counts and is known by its hash.
    pub open spec fn takes(&self, path: Seq<u64>, bb: BitBoard, m: BitMove) -> bool {
        &&& is_legal(bb, m)
        &&& !m.pail_only()
        &&& row_of(m.to_sq()) == goal_row_of(bb.current_player)
        &&& bb.played(m)@.winner() == Some(bb.current_player)
        &&& self.counts(path, bb.played(m))
        &&& tells_winner(bb.played(m))
    }

    /// The score of a position one move from the root, which `root` is to move
    /// at: a draw by the rules, a table's value, or the value of quiescence.
    #[verifier::opaque]
    pub open spec fn leaf_value(&self, root: Player, path: Seq<u64>, c: BitBoard) -> int {
        let draw = match root {
            Player::White => -self.contempt,
            Player::Black => self.contempt as int,
        };
        let far = path.len() as int;
        if self.no_progress_limit > 0 && c.halfmove_clock >= self.no_progress_limit || path.contains(c.hash)
            || self.game_history@.contains(c.hash) {
            draw
        } else {
            match self.table_value(c) {
                Some(v) => if is_white_win(v) {
                    WIN_SCORE - (far + win_dist(v))
                } else if is_black_win(v) {
                    -(WIN_SCORE - (far + win_dist(v)))
                } else {
                    draw
                },
                None => quiet_value(
                    QuietRules { weights: self.weights, qs_mode: self.knobs.qs_mode, ply: far },
                    c,
                    0,
                ),
            }
        }
    }

    /// The table holds nothing on the positions one move away.
    #[verifier::opaque]
    pub open spec fn clear_below(&self, bb: BitBoard) -> bool {
        forall|m: BitMove| #[trigger] is_legal(bb, m) ==> self.tt.find(bb.played(m).hash) is None
    }

    /// A node deep enough for its moves to be searched.
    pub open spec fn looks_ahead(&self, depth: u8) -> bool {
        depth >= 2 || (depth == 1 && self.knobs.iir_depth > 1)
    }

    /// A search one move deep, with a window that holds every score, sees a move
    /// that wins now: evaluations are calm, there are no endgame tables, and the
    /// table holds nothing on the positions one move away.
    pub open spec fn sees_win(&self, bb: BitBoard, depth: u8, alpha: i32, beta: i32, path: Seq<u64>) -> bool {
        &&& depth == 1
        &&& self.knobs.iir_depth > 1
        &&& self.razor_margin(1) >= 0
        &&& alpha < -WIN_SCORE
        &&& beta > WIN_SCORE
        &&& path.len() <= 1001
        &&& self.calm()
        &&& self.tablebase is None
        &&& self.clear_below(bb)
        &&& exists|m: BitMove| #[trigger] self.wins_now(path, bb, m)
    }

    /// A move that wins now is found, and at a root where every move is a draw by
    /// the rules the score is a draw's.
    #[verifier::opaque]
    pub open spec fn sees(
        &self,
        bb: BitBoard,
        depth: u8,
        alpha: i32,
        beta: i32,
        path: Seq<u64>,
        r: (i32, Option<BitMove>),
    ) -> bool {
        &&& self.sees_win(bb, depth, alpha, beta, path) ==> r.0 == win_score_of(bb.current_player, path.len() as int) && r.1
            is Some && bb.played(r.1->0)@.winner() == Some(bb.current_player)
        &&& alpha == i32::MIN + 1 && beta == i32::MAX - 1 && self.looks_ahead(depth) && can_act(bb) && path.len() == 1
            && self.only_draws(path, bb) ==> r.0 == self.draw_for(bb.current_player)
    }

    /// The answer of a searched node; `path` leads from the root to the node.
    /// A stopped search answers nothing. An exact entry that is deep enough is
    /// returned. A game that its hash shows finished scores by its distance.
    /// Without an entry, a finished game scores so too, a returned move is
    /// legal, and with an open window and depth to spare a side that can act
    /// gets a move, a win on the spot is not missed, and where every move is a
    /// draw by the rules the score is a draw's. A move that wins now is found by
    /// a search one move deep in every window that holds all scores. That a win
    /// on the spot is not missed takes a position that carries its own hash.
    pub open spec fn answers(
        &self,
        bb: BitBoard,
        depth: u8,
        alpha: i32,
        beta: i32,
        path: Seq<u64>,
        r: (i32, Option<BitMove>),
        stopped: bool,
    ) -> bool {
        let ply = path.len() - 1;
        &&& self.search_stopped ==> r.0 == 0 && r.1 is None
        &&& !stopped && self.keyed_table() && tells_winner(bb) ==> (bb@.winner() matches Some(w) ==> r.0 == win_score_of(w, ply) && r.1 is None)
        &&& !stopped ==> match self.tt.find(bb.hash) {
            Some(e) => e.depth >= depth && e.flag == TTFlag::Exact ==> r.0 == from_tt(e.score as int, ply) && r.1
                == e.best_move,
            None => match bb@.winner() {
                Some(w) => r.0 == win_score_of(w, ply) && r.1 is None,
                None => {
                    &&& r.1 matches Some(m) ==> is_legal(bb, m)
                    &&& depth == 0 ==> r.1 is None
                    &&& self.sees(bb, depth, alpha, beta, path, r)
                    &&& alpha == i32::MIN + 1 && beta == i32::MAX - 1 && self.looks_ahead(depth) ==> {
                        &&& r.1 is Some <==> can_act(bb)
                        &&& keyed(bb) && self.keyed_table() && (exists|m: BitMove| #[trigger]
                            self.takes(path, bb, m)) ==> as_good(
                            bb.current_player,
                            r.0 as int,
                            win_score_of(bb.current_player, ply + 1),
                        )
                    }
                },
            },
        }
    }

    /// Searches a node: draws by rule and table values are answered at once,
    /// everything else below the node's place on the path.
    #[verifier::spinoff_prover]
    pub(crate) fn minimax(
        &mut self,
        bb: &BitBoard,
        depth: u8,
        alpha: i32,
        beta: i32,
        maximizing: bool,
        Ghost(room): Ghost<int>,
        Ghost(t): Ghost<SearchTree>,
    ) -> (r: (i32, Option<BitMove>))
        requires
            old(self).wf(),
            room >= depth + 8,
            board_ok(*bb, room),
            window_ok(alpha, beta),
            old(self).path_hashes@.len() + depth <= 100_000,
            maximizing == (bb.current_player == Player::White),
            old(self).path_hashes@.len() == 0 ==> old(self).root_player == bb.current_player,
        ensures
            old(self).carries(*final(self)),
            old(self).stays_true(*final(self), *bb),
            old(self).stays_sound(*final(self), *bb),
            old(self).move_keyed(*bb, r),
            old(self).remembered(*final(self), *bb, old(self).path_hashes@.len() as int, r),
            depth == 0 ==> old(self).stays(*final(self)),
            depth == 0 && old(self).path_hashes@.len() > 0 && keyed(*bb) && old(self).plain() && known_by_hash(old(self).weights, *bb, 7) && old(self).tt.find(bb.hash) is None
                && !final(self).search_stopped ==> bounds(
                r.0 as int,
                old(self).leaf_value(old(self).root_player, old(self).path_hashes@, *bb),
                alpha as int,
                beta as int,
            ),
            Self::result_ok(*bb, r),
            keyed(*bb) && old(self).sound() ==> proves(
                bb.hash,
                r.0 as int,
                old(self).path_hashes@.len() as int,
                alpha as int,
                beta as int,
            ),
            old(self).plainly(
                *final(self),
                t,
                old(self).path_hashes@,
                *bb,
                depth as int,
                alpha as int,
                beta as int,
                r.0 as int,
            ),
            old(self).plain_reach(*final(self), t, *bb, depth as int, alpha as int, beta as int, r),
            depth == 0 && old(self).calm() ==> final(self).calm(),
            depth == 0 && old(self).calm() && old(self).tablebase is None && old(self).tt.find(bb.hash) is None && 0 < old(
                self).path_hashes@.len() <= 1001 && !final(self).search_stopped ==> fairly(
                *bb,
                old(self).drawn_at(old(self).path_hashes@, *bb),
                r.0 as int,
                old(self).path_hashes@.len() as int,
                alpha as int,
                beta as int,
            ),
            old(self).is_draw_node(*bb) ==> r.0 == old(self).draw_value() && r.1 is None && *final(self) == *old(self),
            !old(self).is_draw_node(*bb) && old(self).path_hashes@.len() > 0 && old(self).table_value(*bb) is Some
                ==> r.0 == old(self).table_score(old(self).table_value(*bb)->0) && r.1 is None,
            !old(self).is_draw_node(*bb) && (old(self).path_hashes@.len() == 0 || old(self).table_value(*bb) is None)
                ==> old(self).answers(
                *bb,
                depth,
                alpha,
                beta,
                old(self).path_hashes@.push(bb.hash),
                r,
                final(self).search_stopped,
            ),
            visits(*old(self), *final(self), *bb, depth as int, alpha, beta, r),
            old(self).path_hashes@.len() == 0 && alpha == i32::MIN + 1 && beta == i32::MAX - 1 && shallower(
                old(self).tt.find(bb.hash),
                depth as int,
            ) && !final(self).search_stopped ==> shallower(final(self).tt.find(bb.hash), depth + 1),
            old(self).path_hashes@.len() == 0 && bb@.winner() is Some ==> final(self).nodes_searched <= old(
                self).nodes_searched + 1,
        decreases depth, 5int, 0int,
    {
        proof {
            if self.path_hashes@.len() > 0 {
                lemma_leaf_cases(*self, *bb);
            }
            lemma_less_room(*bb, room, 1);
            if keyed(*bb) && self.sound() {
                lemma_sound_draw(*self, *bb, alpha as int, beta as int);
                lemma_sound_table(*self, *bb, alpha as int, beta as int);
            }
        }
        if self.drawn_by_rule(bb) {
            proof {
                lemma_visits_at_once(*self, *self, *bb, depth as int, alpha, beta, self.draw_value() as i32);
                reveal(fairly);
                lemma_goal_at_once(
                    *self,
                    *self,
                    t,
                    *bb,
                    depth as int,
                    alpha as int,
                    beta as int,
                    (self.draw_value() as i32, None),
                );
            }
            return (self.draw_score(), None);
        }
        if self.path_hashes.len() > 0 {
            if let Some(score) = self.probe_tables(bb, Ghost(room)) {
                self.tb_hits = self.tb_hits.saturating_add(1);
                proof {
                    assert(self.wf()) by {
                        reveal(BitBoardEngine::tables_ok);
                    }
                    lemma_true_same(*old(self), *self);
                    lemma_visits_at_once(*old(self), *self, *bb, depth as int, alpha, beta, score);
                    lemma_goal_at_once(
                        *old(self),
                        *self,
                        t,
                        *bb,
                        depth as int,
                        alpha as int,
                        beta as int,
                        (score, None),
                    );
                }
                return (score, None);
            }
        }
        let ghost before = *self;
        self.path_hashes.push(bb.hash);
        proof {
            assert(self.wf()) by {
                reveal(BitBoardEngine::tables_ok);
            }
            lemma_true_same(before, *self);
        }
        let ghost entered = *self;
        let r = self.minimax_impl(bb, depth, alpha, beta, maximizing, Ghost(room), Ghost(t));
        proof {
            assert(entered.path_hashes@ == before.path_hashes@.push(bb.hash));
            lemma_same_answers(before, entered);
        }
        let ghost searched = *self;
        let _ = self.path_hashes.pop();
        proof {
            reveal(fairly);
            assert(before.calm() ==> entered.calm());
            assert(self.wf()) by {
                reveal(BitBoardEngine::tables_ok);
            }
            assert(self.path_hashes@ =~= before.path_hashes@);
            assert(searched.path_hashes@.drop_last() =~= before.path_hashes@);
            lemma_visits(before, entered, searched, *self, *bb, depth as int, alpha, beta, r);
            lemma_true_same(searched, *self);
            lemma_goal_left(before, entered, searched, *self, t, *bb, depth as int, alpha as int, beta as int, r);
        }
        r
    }

    /// Searches below a node that is on the path.
    #[verifier::spinoff_prover]
    #[verifier::rlimit(50)]
    fn minimax_impl(
        &mut self,
        bb: &BitBoard,
        depth_in: u8,
        alpha_in: i32,
        beta_in: i32,
        maximizing: bool,
        Ghost(room): Ghost<int>,
        Ghost(t): Ghost<SearchTree>,
    ) -> (r: (i32, Option<BitMove>))
        requires
            old(self).wf(),
            room >= depth_in + 8,
            board_ok(*bb, room),
            window_ok(alpha_in, beta_in),
            0 < old(self).path_hashes@.len() <= 100_001 - depth_in,
            maximizing == (bb.current_player == Player::White),
            old(self).path_hashes@.len() == 1 ==> old(self).root_player == bb.current_player,
        ensures
            old(self).carries(*final(self)),
            old(self).stays_true(*final(self), *bb),
            old(self).stays_sound(*final(self), *bb),
            old(self).move_keyed(*bb, r),
            old(self).remembered(*final(self), *bb, old(self).ply_of(), r),
            depth_in == 0 ==> old(self).stays(*final(self)),
            depth_in == 0 && keyed(*bb) && old(self).plain() && known_by_hash(old(self).weights, *bb, 7) && old(self).tt.find(bb.hash) is None && !final(self).search_stopped
                ==> bounds(
                r.0 as int,
                quiet_value(old(self).quiet_rules(), *bb, 0),
                alpha_in as int,
                beta_in as int,
            ),
            Self::result_ok(*bb, r),
            keyed(*bb) && old(self).sound() ==> proves(
                bb.hash,
                r.0 as int,
                old(self).ply_of(),
                alpha_in as int,
                beta_in as int,
            ),
            old(self).plain_goal(*final(self), t, *bb, depth_in as int, alpha_in as int, beta_in as int, r),
            depth_in == 0 && old(self).calm() ==> final(self).calm(),
            depth_in == 0 && old(self).calm() && old(self).tt.find(bb.hash) is None && old(self).ply_of() <= 1001 && !final(
                self).search_stopped && bb@.winner() is None ==> in_reach(
                r.0 as int,
                old(self).ply_of(),
                false,
                alpha_in as int,
                beta_in as int,
            ),
            old(self).answers(
                *bb,
                depth_in,
                alpha_in,
                beta_in,
                old(self).path_hashes@,
                r,
                final(self).search_stopped,
            ),
            looks(*old(self), *final(self), *bb, depth_in as int, alpha_in, beta_in, r),
            alpha_in == i32::MIN + 1 && beta_in == i32::MAX - 1 && shallower(old(self).tt.find(bb.hash), depth_in as int)
                && !final(self).search_stopped ==> shallower(final(self).tt.find(bb.hash), depth_in + 1),
            bb@.winner() is Some ==> final(self).nodes_searched <= old(self).nodes_searched + 1,
        decreases depth_in, 4int, 0int,
    {
        self.nodes_searched = self.nodes_searched.saturating_add(1);
        proof {
            assert(self.wf()) by {
                reveal(BitBoardEngine::tables_ok);
            }
        }
        let ghost counted = *self;
        proof {
            lemma_true_same(*old(self), *self);
        }
        let ghost sure = keyed(*bb) && self.sound();
        proof {
            assert(self.nodes_since_check < 1024) by {
                reveal(BitBoardEngine::tables_ok);
            }
        }
        let stop: bool = self.should_stop();
        let ghost mut v = blank_look(*self);
        proof {
            lemma_headway(
                old(self).nodes_searched,
                old(self).search_stopped,
                old(self).nodes_since_check,
                self.nodes_searched,
                self.search_stopped,
                self.nodes_since_check,
            );
        }
        if stop {
            proof {
                lemma_looks(*old(self), *self, v, *bb, depth_in as int, alpha_in, beta_in, (0, None));
                lemma_true_same(counted, *self);
                lemma_proves_mild(bb.hash, 0, old(self).ply_of(), alpha_in as int, beta_in as int);
                reveal(BitBoardEngine::plain_goal);
            }
            return (0, None);
        }
        proof {
            lemma_true_same(counted, *self);
        }
        let ghost awake = *self;
        proof {
            assert(table_ok(self.tt)) by {
                reveal(BitBoardEngine::tables_ok);
            }
            if self.keyed_table() {
                lemma_found_key(*self, bb.hash);
                if tells_winner(*bb) && bb@.winner() is Some {
                    lemma_no_entry(*self, *bb);
                }
            }
        }
        let ply: i32 = self.ply();
        proof {
            lemma_less_room(*bb, room, 1);
            if sure {
                lemma_sound_entry(*self, bb.hash);
                if self.tt.find(bb.hash) is Some {
                    lemma_found_entry(self.tt, bb.hash);
                    lemma_entry_proves(self.tt.find(bb.hash)->0, ply as int);
                }
                if bb@.winner() is Some {
                    lemma_proves_end(*bb, bb@.winner()->0, ply as int, alpha_in as int, beta_in as int);
                }
            }
        }
        let mut alpha: i32 = alpha_in;
        let mut beta: i32 = beta_in;
        let mut depth: u8 = depth_in;
        let mut tt_move: Option<BitMove> = None;
        if let Some((tt_depth, tt_score, tt_flag, tt_mv)) = self.probe_node(bb.hash, ply) {
            tt_move = Some(tt_mv);
            proof {
                lemma_true_same(awake, *self);
                lemma_window_entry(
                    *old(self),
                    *self,
                    t,
                    *bb,
                    depth_in as int,
                    alpha_in as int,
                    beta_in as int,
                    awake.tt.find(bb.hash)->0,
                );
            }
            proof {
                if sure {
                    assert(tt_score > WIN_BOUND && tt_flag != TTFlag::UpperBound ==> forced(
                        Player::White,
                        bb.hash,
                        WIN_SCORE - tt_score - ply,
                    ));
                    assert(tt_score < -WIN_BOUND && tt_flag != TTFlag::LowerBound ==> forced(
                        Player::Black,
                        bb.hash,
                        WIN_SCORE + tt_score - ply,
                    ));
                    reveal(proves);
                }
            }
            proof {
                v = Look { probed: *self, ..v };
                lemma_looks_known(*old(self), *self, v, *bb, depth_in as int, alpha_in, beta_in, tt_score);
            }
            if tt_depth >= depth {
                match tt_flag {
                    TTFlag::Exact => {
                        return (tt_score, tt_move);
                    },
                    TTFlag::LowerBound => {
                        if tt_score > alpha {
                            alpha = tt_score;
                        }
                    },
                    TTFlag::UpperBound => {
                        if tt_score < beta {
                            beta = tt_score;
                        }
                    },
                }
                if alpha >= beta {
                    return (tt_score, tt_move);
                }
            }
        }
        proof {
            lemma_true_same(awake, *self);
            lemma_window_same(*old(self), t, *bb, depth_in as int, alpha_in as int, beta_in as int);
            lemma_quiet_ends(self.quiet_rules(), *bb, 0);
        }
        let ghost probed = *self;
        proof {
            v = Look { probed, ..v };
            assert(narrowed_by(old(self).tt.find(bb.hash), depth_in as int, old(self).ply_of(), alpha_in, beta_in) == (
                alpha,
                beta,
                false,
            ));
            assert(old(self).plain_window(
                t,
                *bb,
                depth_in as int,
                alpha_in as int,
                beta_in as int,
                alpha as int,
                beta as int,
            ));
            lemma_true_same(*old(self), probed);
            lemma_full_depth(*old(self), probed, t, *bb, depth_in as int);
        }
        if tt_move.is_none() && depth > 0 && depth as i32 >= self.knobs.iir_depth {
            depth = depth - 1;
        }
        proof {
            assert(bb.wf()) by {
                reveal(board_ok);
            }
        }
        if let Some(winner) = bb.check_winner() {
            proof {
                lemma_looks_won(
                    *old(self),
                    *self,
                    v,
                    *bb,
                    depth_in as int,
                    alpha_in,
                    beta_in,
                    win_score_of(winner, ply as int) as i32,
                );
                lemma_goal_won(
                    *old(self),
                    *self,
                    t,
                    *bb,
                    depth_in as int,
                    alpha_in as int,
                    beta_in as int,
                    (win_score_of(winner, ply as int) as i32, None),
                );
            }
            return (win_score(winner, ply), None);
        }
        if depth == 0 {
            let ghost quiet = *self;
            let q: i32 = self.quiesce(bb, alpha, beta, maximizing, 0, Ghost(room));
            proof {
                lemma_true_same(quiet, *self);
                lemma_looks_quiet(
                    *old(self),
                    *self,
                    v,
                    *bb,
                    depth_in as int,
                    alpha_in,
                    beta_in,
                    alpha,
                    beta,
                    q,
                );
            }
            proof {
                lemma_goal_quiet(
                    *old(self),
                    quiet,
                    *self,
                    t,
                    *bb,
                    depth_in as int,
                    alpha_in as int,
                    beta_in as int,
                    alpha as int,
                    beta as int,
                    (q, None),
                );
                if sure {
                    lemma_proves_wider(
                        bb.hash,
                        q as int,
                        ply as int,
                        alpha as int,
                        beta as int,
                        alpha_in as int,
                        beta_in as int,
                    );
                }
            }
            proof {
                reveal(BitBoardEngine::sees);
            }
            return (q, None);
        }
        proof {
            assert(sure ==> (alpha != alpha_in && alpha > WIN_BOUND ==> forced(
                Player::White,
                bb.hash,
                WIN_SCORE - alpha - ply,
            )) && (beta != beta_in && beta < -WIN_BOUND ==> forced(Player::Black, bb.hash, WIN_SCORE + beta - ply)));
        }
        self.search_open(
            bb,
            depth_in,
            depth,
            alpha_in,
            beta_in,
            alpha,
            beta,
            maximizing,
            ply,
            tt_move,
            Ghost(room),
            Ghost(t),
            Ghost(*old(self)),
            Ghost(v),
        )
    }

    /// Searches below an unfinished node with depth left that the table does not
    /// answer; `first` is the engine at the node's entry, and the window may have
    /// been narrowed since.
    #[verifier::spinoff_prover]
    #[verifier::rlimit(50)]
    fn search_open(
        &mut self,
        bb: &BitBoard,
        depth_in: u8,
        depth: u8,
        alpha_in: i32,
        beta_in: i32,
        alpha: i32,
        beta: i32,
        maximizing: bool,
        ply: i32,
        tt_move: Option<BitMove>,
        Ghost(room): Ghost<int>,
        Ghost(t): Ghost<SearchTree>,
        Ghost(first): Ghost<Self>,
        Ghost(v): Ghost<Look<L>>,
    ) -> (r: (i32, Option<BitMove>))
        requires
            old(self).wf(),
            first.carries(*old(self)),
            room >= depth_in + 8,
            board_ok(*bb, room),
            bb@.winner() is None,
            window_ok(alpha_in, beta_in),
            window_ok(alpha, beta),
            alpha_in <= alpha,
            beta <= beta_in,
            0 < first.path_hashes@.len() <= 100_001 - depth_in,
            maximizing == (bb.current_player == Player::White),
            first.path_hashes@.len() == 1 ==> first.root_player == bb.current_player,
            ply == first.ply_of(),
            0 <= ply <= 1_000_000,
            depth > 0,
            first.wakes(v.awake),
            !v.awake.search_stopped,
            v.awake.probes(*old(self), bb.hash),
            v.probed == *old(self),
            narrowed_by(first.tt.find(bb.hash), depth_in as int, first.ply_of(), alpha_in, beta_in) == (
                alpha,
                beta,
                false,
            ),
            depth == depth_kept(first.tt.find(bb.hash), depth_in as int, first.knobs.iir_depth),
            tt_move == match first.tt.find(bb.hash) {
                Some(x) => x.best_move,
                None => None,
            },
            first.keyed_table() == old(self).keyed_table(),
            first.plain() == old(self).plain(),
            first.calm() == old(self).calm(),
            first.sound() == old(self).sound(),
            first.plain_window(
                t,
                *bb,
                depth_in as int,
                alpha_in as int,
                beta_in as int,
                alpha as int,
                beta as int,
            ),
            keyed(*bb) && first.sound() ==> (alpha != alpha_in && alpha > WIN_BOUND ==> forced(
                Player::White,
                bb.hash,
                WIN_SCORE - alpha - ply,
            )) && (beta != beta_in && beta < -WIN_BOUND ==> forced(Player::Black, bb.hash, WIN_SCORE + beta - ply)),
        ensures
            first.carries(*final(self)),
            first.stays_true(*final(self), *bb),
            first.stays_sound(*final(self), *bb),
            first.move_keyed(*bb, r),
            first.remembered(*final(self), *bb, first.ply_of(), r),
            Self::result_ok(*bb, r),
            keyed(*bb) && first.sound() ==> proves(
                bb.hash,
                r.0 as int,
                first.ply_of(),
                alpha_in as int,
                beta_in as int,
            ),
            first.plain_goal(*final(self), t, *bb, depth_in as int, alpha_in as int, beta_in as int, r),
            first.answers(*bb, depth_in, alpha_in, beta_in, first.path_hashes@, r, final(self).search_stopped),
            looks(first, *final(self), *bb, depth_in as int, alpha_in, beta_in, r),
            alpha_in == i32::MIN + 1 && beta_in == i32::MAX - 1 && shallower(first.tt.find(bb.hash), depth_in as int)
                && !final(self).search_stopped ==> shallower(final(self).tt.find(bb.hash), depth_in + 1),
        decreases depth_in, 3int, 1int,
    {
        let ghost sure = keyed(*bb) && first.sound();
        let ghost probed = *self;
        let ghost mut v = v;
        proof {
            lemma_full_depth(first, probed, t, *bb, depth_in as int);
        }
        let n = self.facts(bb, depth, maximizing, ply, Ghost(room));
        let ghost judged = *self;
        proof {
            lemma_goal_judged(
                first,
                probed,
                *self,
                t,
                *bb,
                n,
                depth_in as int,
                alpha_in as int,
                beta_in as int,
                alpha as int,
                beta as int,
            );
        }
        if let Some(s) = self.prune(bb, &n, alpha, beta, Ghost(room), Ghost(t)) {
            proof {
                v = Look { judged, n, pruned: Some(s), ..v };
                lemma_looks_pruned(first, *self, v, *bb, depth_in as int, alpha_in, beta_in, alpha, beta, s);
                reveal(BitBoardEngine::sees);
                reveal(BitBoardEngine::plain_goal);
                if sure {
                    lemma_proves_wider(
                        bb.hash,
                        s as int,
                        ply as int,
                        alpha as int,
                        beta as int,
                        alpha_in as int,
                        beta_in as int,
                    );
                }
            }
            return (s, None);
        }
        proof {
            lemma_takes_fixed(first, *self, self.path_hashes@, *bb);
            if alpha == i32::MIN + 1 && beta == i32::MAX - 1 {
                lemma_clear_same(first, *self, *bb);
            }
        }
        let ghost ready = *self;
        let r = self.expand(bb, &n, alpha_in, alpha, beta, tt_move, Ghost(room), Ghost(t));
        proof {
            v = Look { judged, ready, n, pruned: None, ..v };
            lemma_looks_expanded(first, *self, v, *bb, depth_in as int, alpha_in, beta_in, alpha, beta, tt_move, r);
            if first.tt.find(bb.hash) is None && !self.search_stopped {
                lemma_sees(first, ready, *bb, n, depth_in, alpha_in, beta_in, r);
            }
            lemma_goal_wider(
                first,
                judged,
                *self,
                t,
                *bb,
                n,
                depth_in as int,
                alpha_in as int,
                beta_in as int,
                alpha as int,
                beta as int,
                r,
            );
            if sure {
                lemma_proves_wider(
                    bb.hash,
                    r.0 as int,
                    ply as int,
                    alpha as int,
                    beta as int,
                    alpha_in as int,
                    beta_in as int,
                );
            }
        }
        r
    }

    /// The facts of a node from its evaluation.
    #[verifier::spinoff_prover]
    fn facts(&mut self, bb: &BitBoard, depth: u8, maximizing: bool, ply: i32, Ghost(room): Ghost<int>) -> (r:
        NodeFacts)
        requires
            old(self).wf(),
            board_ok(*bb, room),
            depth >= 1,
            0 <= ply <= 1_000_000,
            bb@.winner() is None,
        ensures
            old(self).carries(*final(self)),
            final(self).search_stopped == old(self).search_stopped,
            old(self).stays(*final(self)),
            old(self).stays_true(*final(self), *bb),
            old(self).stays_sound(*final(self), *bb),
            r.ok(),
            old(self).sound() ==> -MILD_EVAL <= r.static_eval <= MILD_EVAL,
            old(self).calm() ==> -MILD_EVAL <= r.static_eval <= MILD_EVAL && final(self).calm(),
            old(self).plain() && keyed(*bb) && tells_eval(old(self).weights, *bb) ==> r.static_eval == heuristic_of(
                old(self).weights,
                *bb,
            ),
            r.depth == depth,
            r.maximizing == maximizing,
            r.ply == ply,
            r.mid_turn == bb.awaiting_barrel,
            r.endgame <==> few_left(bb@),
            old(self).evaluates(*final(self), *bb, r.static_eval),
            r.corrected == r.static_eval + trunc_div(
                old(self).correction_history@[bb.hash as int % 16384] as int,
                256,
            ),
    {
        proof {
            assert(bb.wf()) by {
                reveal(board_ok);
            }
        }
        let static_eval: i32 = self.evaluate(bb);
        let corrected: i32 = static_eval + self.correction(bb.hash);
        let remaining: u8 = 4u8.saturating_sub(bb.white_scored) + 4u8.saturating_sub(bb.black_scored);
        proof {
            lemma_true_same(*old(self), *self);
            if old(self).sound() {
                lemma_sound_mild(*old(self));
                lemma_sound_cache(*old(self), *self);
            }
        }
        NodeFacts {
            depth,
            maximizing,
            ply,
            endgame: remaining <= 3,
            mid_turn: bb.awaiting_barrel,
            static_eval,
            corrected,
        }
    }

    /// What can be answered without searching the moves in full: razoring,
    /// reverse futility, and the null move.
    #[verifier::spinoff_prover]
    fn prune(
        &mut self,
        bb: &BitBoard,
        n: &NodeFacts,
        alpha: i32,
        beta: i32,
        Ghost(room): Ghost<int>,
        Ghost(t): Ghost<SearchTree>,
    ) -> (r: Option<i32>)
        requires
            old(self).wf(),
            n.ok(),
            n.mid_turn == bb.awaiting_barrel,
            room >= n.depth + 8,
            board_ok(*bb, room),
            window_ok(alpha, beta),
            0 < old(self).path_hashes@.len() <= 100_001 - n.depth,
            n.maximizing == (bb.current_player == Player::White),
        ensures
            old(self).carries(*final(self)),
            old(self).stays_true(*final(self), *bb),
            old(self).stays_sound(*final(self), *bb),
            r matches Some(s) ==> score_ok(s as int),
            keyed(*bb) && old(self).sound() && -MILD_EVAL <= n.static_eval <= MILD_EVAL ==> (r matches Some(s) ==> proves(
                bb.hash,
                s as int,
                old(self).ply_of(),
                alpha as int,
                beta as int,
            )),
            alpha == i32::MIN + 1 && beta == i32::MAX - 1 ==> r is None && *final(self) == *old(self),
            n.mid_turn ==> r is None,
            old(self).leaves_all(*n, alpha, beta) ==> r is None && *final(self) == *old(self),
            n.depth == 1 && alpha < -WIN_SCORE && beta > WIN_SCORE && old(self).razor_margin(1) >= 0 && -MILD_EVAL <= n.static_eval
                <= MILD_EVAL ==> r is None && *final(self) == *old(self),
            !old(self).razors(*n, alpha, beta) && old(self).reverse_futility_score(*n, alpha, beta) is Some ==> r is Some
                && r->0 == old(self).reverse_futility_score(*n, alpha, beta)->0,
            prunes(*old(self), *final(self), *bb, *n, alpha, beta, r),
        decreases n.depth, 2int, 0int,
    {
        let ghost start = *self;
        let ghost mut settled_at: i32 = 0;
        let ghost ply = self.ply_of();
        proof {
            if self.leaves_all(*n, alpha, beta) {
                lemma_nothing_pruned(*self, *n, alpha, beta);
            }
            if self.sound() {
                lemma_sound_mild(*self);
            }
        }
        if self.should_razor(n, alpha, beta) {
            let q: i32 = self.quiesce(bb, alpha, beta, n.maximizing, 0, Ghost(room));
            proof {
                lemma_true_same(start, *self);
                settled_at = q;
                if (n.maximizing && q < alpha) || (!n.maximizing && q > beta) {
                    lemma_prunes(start, *self, *self, *bb, *n, alpha, beta, q, Some(q));
                }
            }
            if (n.maximizing && q < alpha) || (!n.maximizing && q > beta) {
                return Some(q);
            }
        }
        let ghost mid = *self;
        if let Some(s) = self.reverse_futility(n, alpha, beta) {
            proof {
                lemma_prunes(start, mid, mid, *bb, *n, alpha, beta, settled_at, Some(s));
                let d = n.depth as int;
                let m = self.knobs.rfp_margin as int;
                assert(m * d >= 0) by (nonlinear_arith)
                    requires
                        m > 0,
                        d >= 1,
                ;
                lemma_proves_mild(bb.hash, s as int, ply, alpha as int, beta as int);
            }
            return Some(s);
        }
        if self.null_move_allowed(n, bb, alpha, beta) {
            let null_depth: u8 = self.null_depth(n, alpha, beta);
            let child = passed_turn(bb, Ghost(room - 1));
            proof {
                reveal(board_ok);
                if keyed(*bb) {
                    lemma_keyed_pass(*bb);
                }
            }
            let child_maximizing: bool = child.current_player == Player::White;
            let (null_score, null_move): (i32, Option<BitMove>) = if n.maximizing {
                self.minimax(&child, null_depth, beta - 1, beta, child_maximizing, Ghost(room - 1), Ghost(t))
            } else {
                self.minimax(&child, null_depth, alpha, alpha + 1, child_maximizing, Ghost(room - 1), Ghost(t))
            };
            proof {
                let s = if n.maximizing {
                    if null_score >= beta {
                        Some(beta)
                    } else {
                        None
                    }
                } else {
                    if null_score <= alpha {
                        Some(alpha)
                    } else {
                        None
                    }
                };
                lemma_passes(mid, *self, *bb, *n, alpha, beta, (null_score, null_move));
                lemma_prunes(start, mid, *self, *bb, *n, alpha, beta, settled_at, s);
                if start.sound() && -MILD_EVAL <= n.static_eval <= MILD_EVAL {
                    if n.maximizing {
                        lemma_proves_mild(bb.hash, beta as int, ply, alpha as int, beta as int);
                    } else {
                        lemma_proves_mild(bb.hash, alpha as int, ply, alpha as int, beta as int);
                    }
                }
            }
            if n.maximizing && null_score >= beta {
                return Some(beta);
            }
            if !n.maximizing && null_score <= alpha {
                return Some(alpha);
            }
        } else {
            proof {
                lemma_prunes(start, mid, mid, *bb, *n, alpha, beta, settled_at, None);
            }
        }
        None
    }

    /// Searches the moves of a node, learns from the result and stores it.
    #[verifier::spinoff_prover]
    #[verifier::rlimit(30)]
    fn expand(
        &mut self,
        bb: &BitBoard,
        n: &NodeFacts,
        first_alpha: i32,
        alpha: i32,
        beta: i32,
        tt_move: Option<BitMove>,
        Ghost(room): Ghost<int>,
        Ghost(t): Ghost<SearchTree>,
    ) -> (r: (i32, Option<BitMove>))
        requires
            old(self).wf(),
            n.ok(),
            n.mid_turn == bb.awaiting_barrel,
            room >= n.depth + 8,
            board_ok(*bb, room),
            window_ok(alpha, beta),
            0 < old(self).path_hashes@.len() <= 100_001 - n.depth,
            n.ply == old(self).path_hashes@.len() - 1,
            n.maximizing == (bb.current_player == Player::White),
            bb@.winner() is None,
            first_alpha <= alpha,
        ensures
            old(self).carries(*final(self)),
            old(self).stays_true(*final(self), *bb),
            keyed(*bb) && old(self).sound() && narrowed(*bb, *n, first_alpha, alpha) ==> final(self).sound() && proves(
                bb.hash,
                r.0 as int,
                n.ply as int,
                alpha as int,
                beta as int,
            ),
            old(self).move_keyed(*bb, r),
            Self::result_ok(*bb, r),
            sees_below(*old(self), *bb, *n, alpha, beta, r, final(self).search_stopped),
            old(self).plain_facts(t, *bb, *n, first_alpha, alpha, beta) ==> old(self).plain_goal(
                *final(self),
                t,
                *bb,
                n.depth as int,
                alpha as int,
                beta as int,
                r,
            ),
            r.1 is Some <==> can_act(*bb),
            r.1 matches Some(m) ==> is_legal(*bb, m),
            r.1 is None ==> r.0 == n.static_eval && *final(self) == *old(self),
            alpha == i32::MIN + 1 && beta == i32::MAX - 1 && !final(self).search_stopped && keyed(*bb) && old(
                self).keyed_table() && (exists|m: BitMove| #[trigger] old(self).takes(old(self).path_hashes@, *bb, m)) ==> as_good(
                bb.current_player,
                r.0 as int,
                win_score_of(bb.current_player, n.ply + 1),
            ),
            r.1 matches Some(m) ==> final(self).tt.find(bb.hash) matches Some(e) && e.depth == n.depth && e.best_move
                == Some(m) && e.score == limited(to_tt(r.0 as int, n.ply as int)) && (r.0 <= first_alpha <==> e.flag
                == TTFlag::UpperBound),
            expands(*old(self), *final(self), *bb, *n, first_alpha, alpha, beta, tt_move, r),
        decreases n.depth, 3int, 0int,
    {
        let ghost sure = keyed(*bb) && self.sound() && narrowed(*bb, *n, first_alpha, alpha);
        let ghost exact = self.plain_facts(t, *bb, *n, first_alpha, alpha, beta);
        proof {
            if exact {
                lemma_facts_leave(*self, t, *bb, *n, first_alpha, alpha, beta);
                lemma_nothing_pruned(*self, *n, alpha, beta);
            }
        }
        let futile: bool = self.is_futile(n, alpha, beta);
        let moves = legal_moves(bb, Ghost(room));
        if moves.len() == 0 {
            proof {
                if exists|m: BitMove| #[trigger] self.takes(self.path_hashes@, *bb, m) {
                    let m = choose|m: BitMove| #[trigger] self.takes(self.path_hashes@, *bb, m);
                    reveal(is_legal);
                    reveal(can_act);
                    assert(bb@.legal(m@));
                }
            }
            proof {
                lemma_expands(
                    *self,
                    *self,
                    blank_expansion(*self, moves@),
                    *bb,
                    *n,
                    first_alpha,
                    alpha,
                    beta,
                    tt_move,
                    (n.static_eval, None),
                );
                lemma_sees_nothing(*self, *bb, *n, alpha, beta, (n.static_eval, None), self.search_stopped);
                assert forall|m: BitMove| !is_legal(*bb, m) by {
                    reveal(is_legal);
                    reveal(can_act);
                    if is_legal(*bb, m) {
                        assert(bb@.legal(m@));
                    }
                }
                if exact {
                    lemma_goal_stuck(*self, t, *bb, *n, first_alpha, alpha, beta);
                }
                if sure {
                    lemma_proves_mild(bb.hash, n.static_eval as int, n.ply as int, alpha as int, beta as int);
                }
            }
            return (n.static_eval, None);
        }
        let ghost listed = moves@;
        let sorted = self.order_moves(moves, bb.current_player, n.depth as usize, tt_move);
        let ghost places = choose|places: Seq<int>| #[trigger]
            self.sorts(listed, sorted@, bb.current_player, n.depth as int, tt_move, places);
        proof {
            lemma_permuted_legal(*bb, listed, sorted@);
            if exists|m: BitMove| #[trigger] self.takes(self.path_hashes@, *bb, m) {
                let m = choose|m: BitMove| #[trigger] self.takes(self.path_hashes@, *bb, m);
                lemma_taking_listed(*self, self.path_hashes@, *bb, m, listed, sorted@);
            }
        }
        let ghost start = *self;
        let (best_score, best_move, last_beta): (i32, Option<BitMove>, i32) = self.search_moves(
            bb,
            n,
            alpha,
            beta,
            &sorted,
            futile,
            Ghost(room),
            Ghost(t),
        );
        let best: BitMove = best_move.unwrap();
        proof {
            lemma_sees_all(
                start,
                *bb,
                *n,
                alpha,
                beta,
                listed,
                sorted@,
                best_score,
                best,
                self.search_stopped,
            );
            lemma_less_room(*bb, room, 1);
            if sure {
                lemma_shown_proves(*bb, listed, sorted@, best_score as int, n.ply as int, alpha as int, beta as int);
            }
            lemma_legal_for_hash(*bb, room, best);
            assert(keyed(*bb) ==> legal_for_key(bb.hash, best)) by {
                reveal(legal_for_key);
                reveal(is_legal);
            }
        }
        let ghost found = *self;
        if n.depth >= 3 && is_abs_below(best_score, WIN_BOUND) && is_abs_below(n.static_eval, WIN_BOUND) {
            self.learn_correction(bb.hash, best_score, n.static_eval, n.depth);
        }
        let ghost learned = *self;
        proof {
            lemma_true_same(found, learned);
        }
        let flag: TTFlag = if best_score <= first_alpha {
            TTFlag::UpperBound
        } else if best_score >= last_beta {
            TTFlag::LowerBound
        } else {
            TTFlag::Exact
        };
        self.store_node(bb.hash, n.depth, best_score, n.ply, flag, best);
        proof {
            let x = choose|x: Expansion<L>|
                #![trigger x.ends_walk(*old(self), found, *bb, *n, sorted@, futile, alpha, beta)]
                x.ends_walk(*old(self), found, *bb, *n, sorted@, futile, alpha, beta) && x.end.best == best_score
                    && x.end.best_move == best_move && x.end.beta == last_beta;
            lemma_expands(
                *old(self),
                *self,
                Expansion { listed, sorted: sorted@, places, back: found, learned, ..x },
                *bb,
                *n,
                first_alpha,
                alpha,
                beta,
                tt_move,
                (best_score, best_move),
            );
            if exact {
                lemma_goal_expanded(
                    *old(self),
                    found,
                    *self,
                    t,
                    *bb,
                    *n,
                    listed,
                    sorted@,
                    first_alpha,
                    alpha,
                    beta,
                    (best_score, best_move),
                );
            }
            if sure {
                lemma_proves_wider(
                    bb.hash,
                    best_score as int,
                    n.ply as int,
                    alpha as int,
                    beta as int,
                    first_alpha as int,
                    beta as int,
                );
                lemma_slot_true(
                    self.tt.find(bb.hash)->0,
                    best_score as int,
                    n.ply as int,
                    first_alpha as int,
                    beta as int,
                );
            }
            lemma_true_same(learned, *self);
        }
        (best_score, best_move)
    }

    /// Searches the moves of a node in order. Returns the best score and move
    /// and the final upper bound.
    #[verifier::spinoff_prover]
    #[verifier::rlimit(50)]
    fn search_moves(
        &mut self,
        bb: &BitBoard,
        n: &NodeFacts,
        alpha_in: i32,
        beta_in: i32,
        moves: &Vec<BitMove>,
        futile: bool,
        Ghost(room): Ghost<int>,
        Ghost(t): Ghost<SearchTree>,
    ) -> (r: (i32, Option<BitMove>, i32))
        requires
            old(self).wf(),
            n.ok(),
            room >= n.depth + 8,
            board_ok(*bb, room),
            all_legal(*bb, moves@),
            moves@.len() > 0,
            window_ok(alpha_in, beta_in),
            0 < old(self).path_hashes@.len() <= 100_001 - n.depth,
            n.ply == old(self).path_hashes@.len() - 1,
            n.maximizing == (bb.current_player == Player::White),
            bb@.winner() is None,
        ensures
            old(self).carries(*final(self)),
            old(self).stays_true(*final(self), *bb),
            old(self).stays_sound(*final(self), *bb),
            score_ok(r.0 as int),
            r.1 matches Some(m) && is_legal(*bb, m),
            r.2 <= beta_in,
            draws_listed(*old(self), *bb, moves@) ==> r.0 == old(self).draw_value(),
            alpha_in < -WIN_SCORE && beta_in > WIN_SCORE && n.depth == 1 && n.ply <= 1000 && old(self).calm() && old(
                self).tablebase is None && clear_list(*old(self), *bb, moves@) && !final(self).search_stopped ==> quick(
                *old(self),
                *bb,
                moves@,
                moves@.len() as int,
                r.0 as int,
                r.1,
                n.ply + 1,
            ),
            !futile ==> old(self).plain_walked(
                *final(self),
                t,
                *bb,
                *n,
                moves@,
                r.0 as int,
                r.1->0,
                alpha_in as int,
                beta_in as int,
            ),
            keyed(*bb) && old(self).sound() ==> all_shown(
                *bb,
                moves@,
                r.0 as int,
                n.ply as int,
                alpha_in as int,
                beta_in as int,
            ),
            alpha_in == i32::MIN + 1 && beta_in == i32::MAX - 1 && !final(self).search_stopped && keyed(*bb) && old(
                self).keyed_table() ==> forall|j: int|
                0 <= j < moves@.len() && #[trigger] old(self).takes(old(self).path_hashes@, *bb, moves@[j]) ==> as_good(
                    bb.current_player,
                    r.0 as int,
                    win_score_of(bb.current_player, n.ply + 1),
                ),
            exists|x: Expansion<L>|
                #![trigger x.ends_walk(*old(self), *final(self), *bb, *n, moves@, futile, alpha_in, beta_in)]
                x.ends_walk(*old(self), *final(self), *bb, *n, moves@, futile, alpha_in, beta_in) && x.end.best == r.0
                    && x.end.best_move == r.1 && x.end.beta == r.2,
        decreases n.depth, 2int, 0int,
    {
        let ghost start = *self;
        let ghost mut steps: Seq<Try<L>> = Seq::empty();
        let ghost sure = keyed(*bb) && self.sound();
        let ghost near = alpha_in < -WIN_SCORE && beta_in > WIN_SCORE && n.depth == 1 && n.ply <= 1000 && self.calm()
            && self.tablebase is None && clear_list(*self, *bb, moves@);
        let ghost drawn = draws_listed(*self, *bb, moves@);
        let prev: Option<BitMove> = self.prev_move;
        let threshold: usize = self.lmp_threshold(n);
        let player: Player = bb.current_player;
        let maximizing: bool = n.maximizing;
        let mut alpha: i32 = alpha_in;
        let mut beta: i32 = beta_in;
        let mut best_score: i32 = if maximizing { i32::MIN + 1 } else { i32::MAX - 1 };
        let mut best_move: Option<BitMove> = None;
        let mut searched: usize = 0;
        let mut i: usize = 0;
        let mut cut: bool = false;
        proof {
            assert(prev matches Some(m) ==> m.to_sq() < 36) by {
                reveal(BitBoardEngine::tables_ok);
            }
        }
        proof {
            lemma_less_room(*bb, room, 1);
            lemma_walks_start(*self, *bb, *n, moves@, futile, alpha_in, beta_in);
            lemma_quick_start(*self, *bb, moves@, best_score as int, n.ply + 1);
            lemma_walk_start(*self, t, *bb, *n, moves@, best_score as int, alpha_in as int, beta_in as int);
            lemma_shown_start(*bb, moves@, best_score as int, n.ply as int, alpha_in as int, beta_in as int);
        }
        while i < moves.len() && !cut
            invariant
                steps.len() == i,
                walks(
                    start,
                    *self,
                    *bb,
                    *n,
                    moves@,
                    futile,
                    alpha_in,
                    beta_in,
                    steps,
                    Progress { searched: searched as int, best: best_score, best_move, alpha, beta, cut },
                ),
                board_ok(*bb, 1),
                near ==> alpha_in < -WIN_SCORE && beta_in > WIN_SCORE && n.depth == 1 && n.ply <= 1000 && start.calm()
                    && start.tablebase is None && clear_list(start, *bb, moves@) && start.stays(*self),
                near ==> self.calm(),
                near && !self.search_stopped ==> quick(
                    start,
                    *bb,
                    moves@,
                    i as int,
                    best_score as int,
                    best_move,
                    n.ply + 1,
                ),
                near && cut ==> self.search_stopped,
                drawn == draws_listed(start, *bb, moves@),
                drawn && searched > 0 ==> best_score == start.draw_value(),
                threshold == start.lmp_threshold_of(*n),
                !futile ==> start.plain_walk(
                    *self,
                    t,
                    *bb,
                    *n,
                    moves@,
                    i as int,
                    best_score as int,
                    best_move,
                    alpha_in as int,
                    beta_in as int,
                ),
                sure == (keyed(*bb) && start.sound()),
                maximizing ==> beta == beta_in && alpha == if best_score > alpha_in {
                    best_score
                } else {
                    alpha_in
                },
                !maximizing ==> alpha == alpha_in && beta == if best_score < beta_in {
                    best_score
                } else {
                    beta_in
                },
                cut ==> beta <= alpha,
                alpha_in < beta_in,
                window_ok(alpha_in, beta_in),
                sure ==> shown(
                    *bb,
                    moves@,
                    i as int,
                    best_score as int,
                    n.ply as int,
                    alpha_in as int,
                    beta_in as int,
                ),
                n.ok(),
                room >= n.depth + 8,
                board_ok(*bb, room),
                all_legal(*bb, moves@),
                moves@.len() > 0,
                maximizing == n.maximizing,
                threshold >= 1,
                i <= moves@.len(),
                searched <= i,
                prev == start.prev_move,
                prev matches Some(m) ==> m.to_sq() < 36,
                start == *old(self),
                0 < start.path_hashes@.len() <= 100_001 - n.depth,
                n.ply == start.path_hashes@.len() - 1,
                maximizing == (bb.current_player == Player::White),
                player == bb.current_player,
                bb@.winner() is None,
                alpha_in == i32::MIN + 1 && beta_in == i32::MAX - 1 ==> !cut,
                alpha_in == i32::MIN + 1 && beta_in == i32::MAX - 1 && maximizing ==> beta == beta_in,
                alpha_in == i32::MIN + 1 && beta_in == i32::MAX - 1 && !maximizing ==> alpha == alpha_in,
                !self.search_stopped && keyed(*bb) && start.keyed_table() ==> forall|j: int|
                    0 <= j < i && #[trigger] start.takes(start.path_hashes@, *bb, moves@[j]) ==> as_good(
                        player,
                        best_score as int,
                        win_score_of(player, n.ply + 1),
                    ),
                start.keeps(*self),
                self.wf(),
                cut ==> searched > 0,
                start.stays_true(*self, *bb),
                start.stays_sound(*self, *bb),
                !cut ==> window_ok(alpha, beta),
                i > 0 ==> searched > 0,
                searched == 0 ==> best_move is None && alpha == alpha_in && beta == beta_in,
                searched > 0 ==> score_ok(best_score as int) && best_move is Some && is_legal(*bb, best_move->0),
                searched > 0 && maximizing && !cut ==> -SCORE_LIMIT <= alpha <= SCORE_LIMIT,
                searched > 0 && !maximizing && !cut ==> -SCORE_LIMIT <= beta <= SCORE_LIMIT,
                searched == 0 && maximizing ==> best_score == i32::MIN + 1,
                searched == 0 && !maximizing ==> best_score == i32::MAX - 1,
            decreases moves@.len() - i,
        {
            let mv: BitMove = moves[i];
            i = i + 1;
            proof {
                assert(is_legal(*bb, moves@[i - 1]));
                lemma_legal_for_hash(*bb, room, mv);
            }
            let ghost p = Progress { searched: searched as int, best: best_score, best_move, alpha, beta, cut };
            if self.should_skip(n, &mv, searched, best_score, futile, threshold, player) {
                proof {
                    let s = lemma_walks_skip(start, *self, *bb, *n, moves@, futile, alpha_in, beta_in, steps, p);
                    steps = steps.push(s);
                    if near && !self.search_stopped {
                        assert(!start.wins_now(start.path_hashes@, *bb, moves@[i - 1]));
                        lemma_quick_skip(
                            start,
                            *bb,
                            moves@,
                            i - 1,
                            best_score as int,
                            best_move,
                            n.ply + 1,
                        );
                    }
                    if !futile {
                        lemma_walk_skip(
                            start,
                            *self,
                            t,
                            *bb,
                            *n,
                            moves@,
                            i - 1,
                            best_score as int,
                            best_move,
                            alpha_in as int,
                            beta_in as int,
                            searched as int,
                        );
                    }
                    if sure {
                        lemma_shown_skip(
                            *bb,
                            moves@,
                            i - 1,
                            best_score as int,
                            n.ply as int,
                            alpha_in as int,
                            beta_in as int,
                        );
                    }
                }
                continue;
            }
            proof {
                lemma_leaf_fixed(start, *self, start.root_player, start.path_hashes@, bb.played(mv));
                lemma_drawn_fixed(start, *self, start.path_hashes@, bb.played(mv));
                if drawn {
                    lemma_drawn_listed(start, *bb, moves@, i - 1);
                }
                if near {
                    lemma_clear_at(start, *bb, moves@, i - 1);
                    assert(self.tt.find(bb.played(mv).hash) == start.tt.find(bb.played(mv).hash));
                }
            }
            let ghost untried = *self;
            let score: i32 = self.try_move(bb, n, &mv, searched, alpha, beta, Ghost(room), Ghost(t));
            proof {
                if near && !self.search_stopped {
                    lemma_quick_step(
                        start,
                        *bb,
                        moves@,
                        i - 1,
                        best_score as int,
                        best_move,
                        n.ply + 1,
                        score as int,
                        alpha as int,
                        beta as int,
                        alpha_in as int,
                        beta_in as int,
                    );
                }
                if !futile {
                    lemma_walk_step(
                        start,
                        untried,
                        *self,
                        t,
                        *bb,
                        *n,
                        moves@,
                        i - 1,
                        best_score as int,
                        best_move,
                        searched as int,
                        alpha as int,
                        beta as int,
                        alpha_in as int,
                        beta_in as int,
                        score as int,
                    );
                }
                if sure {
                    lemma_shown_step(
                        *bb,
                        moves@,
                        i - 1,
                        best_score as int,
                        score as int,
                        n.ply as int,
                        alpha as int,
                        beta as int,
                        alpha_in as int,
                        beta_in as int,
                    );
                }
            }
            searched = searched + 1;
            if maximizing {
                if score > best_score {
                    best_score = score;
                    best_move = Some(mv);
                }
                if score > alpha {
                    alpha = score;
                }
            } else {
                if score < best_score {
                    best_score = score;
                    best_move = Some(mv);
                }
                if score < beta {
                    beta = score;
                }
            }
            if beta <= alpha {
                proof {
                    if near && !self.search_stopped {
                        lemma_quick_best(
                            start,
                            *bb,
                            moves@,
                            i as int,
                            best_score as int,
                            best_move->0,
                            n.ply + 1,
                        );
                    }
                }
                let ghost taught = *self;
                self.learn_cutoff(&mv, prev, n.depth);
                proof {
                    let s = Try { from: untried, tried: taught, before: p, score };
                    lemma_walks_try(start, *self, *bb, *n, moves@, futile, alpha_in, beta_in, steps, s);
                    steps = steps.push(s);
                    assert(taught.fixed().nnue == self.fixed().nnue && taught.fixed().weights == self.fixed().weights);
                    lemma_true_same(taught, *self);
                    if !futile {
                        lemma_walk_same(
                            start,
                            taught,
                            *self,
                            t,
                            *bb,
                            *n,
                            moves@,
                            i as int,
                            best_score as int,
                            best_move,
                            alpha_in as int,
                            beta_in as int,
                        );
                    }
                }
                cut = true;
            } else {
                proof {
                    let s = Try { from: untried, tried: *self, before: p, score };
                    lemma_walks_try(start, *self, *bb, *n, moves@, futile, alpha_in, beta_in, steps, s);
                    steps = steps.push(s);
                }
            }
        }
        let ghost walked = *self;
        self.prev_move = prev;
        proof {
            let x = Expansion {
                steps,
                end: Progress { searched: searched as int, best: best_score, best_move, alpha, beta, cut },
                walked,
                ..blank_expansion(start, moves@)
            };
            assert(x.ends_walk(start, *self, *bb, *n, moves@, futile, alpha_in, beta_in));
            assert(self.wf()) by {
                reveal(BitBoardEngine::tables_ok);
            }
            lemma_true_same(walked, *self);
            if !futile {
                lemma_walk_same(
                    start,
                    walked,
                    *self,
                    t,
                    *bb,
                    *n,
                    moves@,
                    i as int,
                    best_score as int,
                    best_move,
                    alpha_in as int,
                    beta_in as int,
                );
                lemma_walk_end(
                    start,
                    *self,
                    t,
                    *bb,
                    *n,
                    moves@,
                    i as int,
                    best_score as int,
                    best_move->0,
                    alpha_in as int,
                    beta_in as int,
                );
            }
        }
        (best_score, best_move, beta)
    }

    /// Plays a move, searches the position behind it, and takes the move back.
    #[verifier::spinoff_prover]
    fn try_move(
        &mut self,
        bb: &BitBoard,
        n: &NodeFacts,
        mv: &BitMove,
        searched: usize,
        alpha: i32,
        beta: i32,
        Ghost(room): Ghost<int>,
        Ghost(t): Ghost<SearchTree>,
    ) -> (r: i32)
        requires
            old(self).wf(),
            n.ok(),
            room >= n.depth + 8,
            board_ok(*bb, room),
            is_legal(*bb, *mv),
            mv.valid(),
            mv.to_sq() < 36,
            window_ok(alpha, beta),
            searched > 0 && n.maximizing ==> -SCORE_LIMIT <= alpha <= SCORE_LIMIT,
            searched > 0 && !n.maximizing ==> -SCORE_LIMIT <= beta <= SCORE_LIMIT,
            0 < old(self).path_hashes@.len() <= 100_001 - n.depth,
        ensures
            old(self).keeps(*final(self)),
            final(self).wf(),
            old(self).stays_true(*final(self), *bb),
            old(self).stays_sound(*final(self), *bb),
            score_ok(r as int),
            n.depth == 1 && old(self).calm() ==> final(self).calm(),
            n.depth == 1 && old(self).calm() && old(self).tablebase is None && old(self).tt.find(bb.played(*mv).hash) is None
                && old(self).path_hashes@.len() <= 1001 && !final(self).search_stopped ==> fairly(
                bb.played(*mv),
                old(self).drawn_at(old(self).path_hashes@, bb.played(*mv)),
                r as int,
                old(self).path_hashes@.len() as int,
                alpha as int,
                beta as int,
            ),
            old(self).drawn_at(old(self).path_hashes@, bb.played(*mv)) ==> r == old(self).draw_value(),
            old(self).plain_tried(*final(self), t, *bb, *n, *mv, searched as int, alpha as int, beta as int, r as int),
            keyed(*bb) && old(self).sound() ==> proves(
                bb.played(*mv).hash,
                r as int,
                old(self).path_hashes@.len() as int,
                alpha as int,
                beta as int,
            ),
            !final(self).search_stopped && keyed(*bb) && old(self).keyed_table() && old(self).counts(old(self).path_hashes@, bb.played(*mv)) && tells_winner(
                bb.played(*mv),
            ) ==> (bb.played(*mv)@.winner() matches Some(w) ==> r == win_score_of(
                w,
                old(self).path_hashes@.len() as int,
            )),
            n.depth == 1 ==> old(self).stays(*final(self)),
            tries(*old(self), *final(self), *bb, *n, *mv, searched as int, alpha, beta, r),
        decreases n.depth, 1int, 0int,
    {
        let child = child_of(bb, mv, Ghost(room - 1));
        proof {
            lemma_less_room(child, room - 1, 0);
            if known_by_hash(self.weights, *bb, 8) {
                lemma_known_parts(self.weights, *bb, 8);
            }
            if keyed(*bb) {
                lemma_keyed_child(*bb, *mv, room);
            }
        }
        self.enter_child(bb, &child, Ghost(room));
        self.prev_move = Some(*mv);
        proof {
            assert(self.wf()) by {
                reveal(BitBoardEngine::tables_ok);
            }
            lemma_true_same(*old(self), *self);
            lemma_leaf_fixed(*old(self), *self, old(self).root_player, old(self).path_hashes@, child);
        }
        let ghost entered = *self;
        let score: i32 = self.search_child(n, &child, mv, searched, alpha, beta, bb.current_player, Ghost(room - 1), Ghost(t));
        let ghost found = *self;
        self.leave_child();
        proof {
            lemma_true_same(found, *self);
            lemma_tries(*old(self), entered, found, *self, *bb, *n, *mv, searched as int, alpha, beta, score);
            lemma_tried(
                *old(self),
                entered,
                found,
                *self,
                t,
                *bb,
                *n,
                *mv,
                searched as int,
                alpha as int,
                beta as int,
                score as int,
                room,
            );
        }
        score
    }

    /// Searches one child: the first with the whole window, later ones reduced
    /// and with a null window, again in full if that looks promising.
    #[verifier::spinoff_prover]
    fn search_child(
        &mut self,
        n: &NodeFacts,
        child: &BitBoard,
        mv: &BitMove,
        searched: usize,
        alpha: i32,
        beta: i32,
        player: Player,
        Ghost(room): Ghost<int>,
        Ghost(t): Ghost<SearchTree>,
    ) -> (r: i32)
        requires
            old(self).wf(),
            n.ok(),
            room >= n.depth - 1 + 8,
            board_ok(*child, room),
            mv.valid(),
            window_ok(alpha, beta),
            searched > 0 && n.maximizing ==> -SCORE_LIMIT <= alpha <= SCORE_LIMIT,
            searched > 0 && !n.maximizing ==> -SCORE_LIMIT <= beta <= SCORE_LIMIT,
            0 < old(self).path_hashes@.len() <= 100_001 - n.depth,
        ensures
            old(self).carries(*final(self)),
            old(self).stays_true(*final(self), *child),
            old(self).stays_sound(*final(self), *child),
            score_ok(r as int),
            n.depth == 1 && old(self).calm() ==> final(self).calm(),
            n.depth == 1 && old(self).calm() && old(self).tablebase is None && old(self).tt.find(child.hash) is None && old(
                self).path_hashes@.len() <= 1001 && !final(self).search_stopped ==> fairly(
                *child,
                old(self).drawn_at(old(self).path_hashes@, *child),
                r as int,
                old(self).path_hashes@.len() as int,
                alpha as int,
                beta as int,
            ),
            old(self).drawn_at(old(self).path_hashes@, *child) ==> r == old(self).draw_value(),
            narrow_enough(*n, searched as int, alpha as int, beta as int) ==> old(self).plainly(
                *final(self),
                t,
                old(self).path_hashes@,
                *child,
                n.depth - 1,
                alpha as int,
                beta as int,
                r as int,
            ),
            keyed(*child) && old(self).sound() ==> proves(
                child.hash,
                r as int,
                old(self).path_hashes@.len() as int,
                alpha as int,
                beta as int,
            ),
            !final(self).search_stopped && keyed(*child) && old(self).keyed_table() && old(self).counts(
                old(self).path_hashes@,
                *child,
            ) && tells_winner(*child)
                ==> (child@.winner() matches Some(w) ==> r == win_score_of(w, old(self).path_hashes@.len() as int)),
            n.depth == 1 ==> old(self).stays(*final(self)),
            replies(*old(self), *final(self), *child, *n, *mv, searched as int, alpha, beta, player, r),
        decreases n.depth, 0int, 0int,
    {
        let child_maximizing: bool = child.current_player == Player::White;
        let full_depth: u8 = n.depth - 1;
        if searched == 0 {
            let (s, found): (i32, Option<BitMove>) = self.minimax(
                child,
                full_depth,
                alpha,
                beta,
                child_maximizing,
                Ghost(room),
                Ghost(t),
            );
            proof {
                lemma_replies_first(*old(self), *self, *child, *n, *mv, alpha, beta, player, (s, found));
            }
            return s;
        }
        proof {
            assert(within(self.history@, 1296, 0, 10_000)) by {
                reveal(BitBoardEngine::tables_ok);
            }
        }
        let reduction: u8 = self.reduction(n, mv, searched, player);
        proof {
            if self.searches_plainly(t) {
                lemma_plain_setup(*self, t);
                lemma_no_reduction(*self, *n, *mv, searched as int, player);
            }
        }
        let reduced: u8 = full_depth.saturating_sub(reduction);
        let (null_score, null_move): (i32, Option<BitMove>) = if n.maximizing {
            self.minimax(child, reduced, alpha, alpha + 1, child_maximizing, Ghost(room), Ghost(t))
        } else {
            self.minimax(child, reduced, beta - 1, beta, child_maximizing, Ghost(room), Ghost(t))
        };
        proof {
            lemma_leaf_fixed(*old(self), *self, old(self).root_player, old(self).path_hashes@, *child);
        }
        let ghost glanced = *self;
        proof {
            assert(self.fixed().contempt == old(self).fixed().contempt && self.fixed().tablebase == old(
                self).fixed().tablebase && self.fixed().game_history == old(self).fixed().game_history
                && self.fixed().no_progress_limit == old(self).fixed().no_progress_limit);
            reveal(fairly);
        }
        let again: bool = if n.maximizing {
            null_score > alpha && (null_score < beta || reduction > 0)
        } else {
            null_score < beta && (null_score > alpha || reduction > 0)
        };
        if again {
            let (s, found): (i32, Option<BitMove>) = self.minimax(
                child,
                full_depth,
                alpha,
                beta,
                child_maximizing,
                Ghost(room),
                Ghost(t),
            );
            proof {
                lemma_replies_later(
                    *old(self),
                    Glance { mid: glanced, found: (null_score, null_move) },
                    *self,
                    *child,
                    *n,
                    *mv,
                    searched as int,
                    alpha,
                    beta,
                    player,
                    (s, found),
                );
                lemma_child_again(
                    *old(self),
                    glanced,
                    *self,
                    t,
                    *child,
                    *n,
                    searched as int,
                    alpha as int,
                    beta as int,
                    null_score as int,
                    s as int,
                );
            }
            s
        } else {
            proof {
                lemma_replies_later(
                    *old(self),
                    Glance { mid: glanced, found: (null_score, null_move) },
                    *self,
                    *child,
                    *n,
                    *mv,
                    searched as int,
                    alpha,
                    beta,
                    player,
                    (null_score, null_move),
                );
                lemma_child_glance(
                    *old(self),
                    *self,
                    t,
                    *child,
                    *n,
                    searched as int,
                    alpha as int,
                    beta as int,
                    null_score as int,
                );
                if keyed(*child) && old(self).sound() {
                    lemma_proves_null(
                        child.hash,
                        null_score as int,
                        self.path_hashes@.len() as int,
                        alpha as int,
                        beta as int,
                    );
                }
            }
            null_score
        }
    }
}

/// A node with a mild evaluation, and a window that was narrowed from below by a
/// win at most if it is there.
spec fn narrowed(bb: BitBoard, n: NodeFacts, first_alpha: i32, alpha: i32) -> bool {
    &&& -MILD_EVAL <= n.static_eval <= MILD_EVAL
    &&& alpha > first_alpha && alpha > WIN_BOUND ==> forced(Player::White, bb.hash, WIN_SCORE - alpha - n.ply)
}

/// A draw's score claims nothing.
#[verifier::spinoff_prover]
proof fn lemma_sound_draw<L: OutputLayer>(e: BitBoardEngine<L>, bb: BitBoard, alpha: int, beta: int)
    requires
        e.sound(),
    ensures
        proves(bb.hash, e.draw_value(), e.path_hashes@.len() as int, alpha, beta),
{
    lemma_sound_mild(e);
    lemma_proves_mild(bb.hash, e.draw_value(), e.path_hashes@.len() as int, alpha, beta);
}

/// A table's value claims what is true.
#[verifier::spinoff_prover]
proof fn lemma_sound_table<L: OutputLayer>(e: BitBoardEngine<L>, bb: BitBoard, alpha: int, beta: int)
    requires
        e.sound(),
        keyed(bb),
        board_ok(bb, 1),
        e.path_hashes@.len() <= 100_001,
    ensures
        e.table_value(bb) matches Some(v) ==> proves(bb.hash, e.table_score(v), e.path_hashes@.len() as int, alpha, beta),
{
    if let Some(v) = e.table_value(bb) {
        lemma_sound_draw(e, bb, alpha, beta);
        reveal(BitBoardEngine::sound);
        reveal(proves);
        assert(keyed(bb));
    }
}

/// A true entry keeps an engine sound.
#[verifier::spinoff_prover]
proof fn lemma_sound_store<L: OutputLayer>(a: BitBoardEngine<L>, b: BitBoardEngine<L>, i: int, s: int, x: TTEntry)
    requires
        a.sound(),
        a.fixed() == b.fixed(),
        a.eval_cache == b.eval_cache,
        slot_true(Some(x)),
        0 <= i < a.tt.clusters@.len(),
        0 <= s < 3,
        b.tt.clusters@.len() == a.tt.clusters@.len(),
        b.tt.clusters@[i].entries@ == a.tt.clusters@[i].entries@.update(s, Some(x)),
        forall|j: int| 0 <= j < a.tt.clusters@.len() && j != i ==> #[trigger] b.tt.clusters@[j] == a.tt.clusters@[j],
    ensures
        b.sound(),
{
    let c = BitBoardEngine { tt: b.tt, ..a };
    assert(c.sound()) by {
        reveal(BitBoardEngine::sound);
        assert forall|x: BitBoard| #[trigger] keyed(x) implies a.table_value(x) == c.table_value(x) by {}
        assert forall|j: int, k: int| 0 <= j < c.tt.clusters@.len() && 0 <= k < 3 implies slot_true(
            #[trigger] c.tt.clusters@[j].entries@[k],
        ) by {
            assert(slot_true(a.tt.clusters@[j].entries@[k]));
        }
    }
    lemma_sound_same(c, b);
}

/// A won position that its hash shows has no entry in a keyed table.
#[verifier::spinoff_prover]
proof fn lemma_no_entry<L: OutputLayer>(e: BitBoardEngine<L>, bb: BitBoard)
    requires
        table_ok(e.tt),
        e.keyed_table(),
        tells_winner(bb),
        bb@.winner() is Some,
    ensures
        e.tt.find(bb.hash) is None,
{
    lemma_found_key(e, bb.hash);
    if let Some(x) = e.tt.find(bb.hash) {
        reveal(legal_for_key);
        let m = x.best_move->0;
        let b = choose|b: BitBoard| #[trigger] keyed(b) && b.hash == bb.hash && b@.winner() is None && b@.legal(m@);
        assert(keyed(b) && b.hash == bb.hash);
    }
}

/// Plain evaluations depend on the network, the weights and the cache only, and
/// a keyed table on its entries.
#[verifier::spinoff_prover]
pub(crate) proof fn lemma_true_same<L: OutputLayer>(a: BitBoardEngine<L>, b: BitBoardEngine<L>)
    requires
        a.nnue == b.nnue,
        a.weights == b.weights,
    ensures
        a.eval_cache == b.eval_cache ==> a.plain() == b.plain(),
        a.tt.clusters == b.tt.clusters ==> a.keyed_table() == b.keyed_table(),
        a.contempt == b.contempt && a.eval_cache == b.eval_cache ==> a.calm() == b.calm(),
        a.fixed() == b.fixed() ==> a.contempt == b.contempt,
        a.fixed() == b.fixed() && a.tt.clusters == b.tt.clusters && a.eval_cache == b.eval_cache ==> a.sound() == b.sound(),
{
    reveal(BitBoardEngine::honest);
    reveal(BitBoardEngine::keyed_table);
    let fa = a.fixed();
    let fb = b.fixed();
    assert(fa.contempt == a.contempt && fb.contempt == b.contempt);
    if a.fixed() == b.fixed() && a.tt.clusters == b.tt.clusters && a.eval_cache == b.eval_cache {
        lemma_sound_same(a, b);
    }
}

/// A keyed table finds keyed entries.
#[verifier::spinoff_prover]
proof fn lemma_found_key<L: OutputLayer>(e: BitBoardEngine<L>, hash: u64)
    requires
        e.keyed_table(),
        table_ok(e.tt),
    ensures
        e.tt.find(hash) matches Some(x) ==> legal_for_key(hash, x.best_move->0),
{
    reveal(BitBoardEngine::keyed_table);
    let i = e.tt.index_of(hash);
    let c = e.tt.clusters@[i];
    assert(0 <= i < e.tt.clusters@.len());
    assert(slot_keyed(e.tt.clusters@[i].entries@[0]));
    assert(slot_keyed(e.tt.clusters@[i].entries@[1]));
    assert(slot_keyed(e.tt.clusters@[i].entries@[2]));
}

/// What a node sees of its moves: draws, and a win now one move deep.
#[verifier::opaque]
spec fn sees_below<L: OutputLayer>(
    e: BitBoardEngine<L>,
    bb: BitBoard,
    n: NodeFacts,
    alpha: i32,
    beta: i32,
    r: (i32, Option<BitMove>),
    stopped: bool,
) -> bool {
    &&& can_act(bb) && e.only_draws(e.path_hashes@, bb) ==> r.0 == e.draw_value()
    &&& alpha < -WIN_SCORE && beta > WIN_SCORE && n.depth == 1 && n.ply <= 1000 && e.calm() && e.tablebase is None
        && e.clear_below(bb) && !stopped && (exists|m: BitMove| #[trigger] e.wins_now(e.path_hashes@, bb, m)) ==> r.0
        == win_score_of(bb.current_player, n.ply + 1) && r.1 is Some && bb.played(r.1->0)@.winner() == Some(
        bb.current_player,
    )
}

/// A side that cannot act sees nothing.
#[verifier::spinoff_prover]
proof fn lemma_sees_nothing<L: OutputLayer>(
    e: BitBoardEngine<L>,
    bb: BitBoard,
    n: NodeFacts,
    alpha: i32,
    beta: i32,
    r: (i32, Option<BitMove>),
    stopped: bool,
)
    requires
        !can_act(bb),
    ensures
        sees_below(e, bb, n, alpha, beta, r, stopped),
{
    reveal(sees_below);
    assert forall|m: BitMove| !#[trigger] e.wins_now(e.path_hashes@, bb, m) by {
        reveal(is_legal);
        reveal(can_act);
        if e.wins_now(e.path_hashes@, bb, m) {
            assert(bb@.legal(m@));
        }
    }
}

/// With all moves searched.
#[verifier::spinoff_prover]
proof fn lemma_sees_all<L: OutputLayer>(
    e: BitBoardEngine<L>,
    bb: BitBoard,
    n: NodeFacts,
    alpha: i32,
    beta: i32,
    listed: Seq<BitMove>,
    moves: Seq<BitMove>,
    best: i32,
    m: BitMove,
    stopped: bool,
)
    requires
        lists_legal(listed, bb@),
        all_legal(bb, listed),
        all_legal(bb, moves),
        listed.to_multiset() == moves.to_multiset(),
        draws_listed(e, bb, moves) ==> best == e.draw_value(),
        alpha < -WIN_SCORE && beta > WIN_SCORE && n.depth == 1 && n.ply <= 1000 && e.calm() && e.tablebase is None
            && clear_list(e, bb, moves) && !stopped ==> quick(
            e,
            bb,
            moves,
            moves.len() as int,
            best as int,
            Some(m),
            n.ply + 1,
        ),
    ensures
        sees_below(e, bb, n, alpha, beta, (best, Some(m)), stopped),
{
    reveal(sees_below);
    if e.only_draws(e.path_hashes@, bb) {
        lemma_draws_listed(e, bb, moves);
    }
    if e.clear_below(bb) {
        lemma_clear_list(e, bb, moves);
    }
    if exists|k: BitMove| #[trigger] e.wins_now(e.path_hashes@, bb, k) {
        let k = choose|k: BitMove| #[trigger] e.wins_now(e.path_hashes@, bb, k);
        lemma_quick_listed(e, bb, k, listed, moves);
        lemma_quick_done(e, bb, moves, best as int, m, n.ply + 1);
    }
}

/// What a node sees holds of the search that began there.
#[verifier::spinoff_prover]
proof fn lemma_sees<L: OutputLayer>(
    a: BitBoardEngine<L>,
    b: BitBoardEngine<L>,
    bb: BitBoard,
    n: NodeFacts,
    depth: u8,
    alpha: i32,
    beta: i32,
    r: (i32, Option<BitMove>),
)
    requires
        a.fixed() == b.fixed(),
        a.root_player == b.root_player,
        a.path_hashes@ == b.path_hashes@,
        a.path_hashes@.len() > 0,
        a.path_hashes@.len() == 1 ==> a.root_player == bb.current_player,
        a.sees_win(bb, depth, alpha, beta, a.path_hashes@) ==> a.tt.clusters == b.tt.clusters && b.calm() && n.depth == 1,
        n.ply == a.path_hashes@.len() - 1,
        sees_below(b, bb, n, alpha, beta, r, false),
    ensures
        a.sees(bb, depth, alpha, beta, a.path_hashes@, r),
{
    reveal(sees_below);
    reveal(BitBoardEngine::sees);
    lemma_sees_fixed(a, b, a.path_hashes@, bb);
    if a.sees_win(bb, depth, alpha, beta, a.path_hashes@) {
        lemma_clear_same(a, b, bb);
        let m = choose|m: BitMove| #[trigger] a.wins_now(a.path_hashes@, bb, m);
        assert(b.wins_now(b.path_hashes@, bb, m));
    }
}

/// The positions behind the listed moves are draws by the rules.
#[verifier::opaque]
spec fn draws_listed<L: OutputLayer>(e: BitBoardEngine<L>, bb: BitBoard, moves: Seq<BitMove>) -> bool {
    forall|j: int| 0 <= j < moves.len() ==> e.drawn_at(e.path_hashes@, bb.played(#[trigger] moves[j]))
}

#[verifier::spinoff_prover]
proof fn lemma_drawn_listed<L: OutputLayer>(e: BitBoardEngine<L>, bb: BitBoard, moves: Seq<BitMove>, j: int)
    requires
        draws_listed(e, bb, moves),
        0 <= j < moves.len(),
    ensures
        e.drawn_at(e.path_hashes@, bb.played(moves[j])),
{
    reveal(draws_listed);
}

#[verifier::spinoff_prover]
proof fn lemma_draws_listed<L: OutputLayer>(e: BitBoardEngine<L>, bb: BitBoard, moves: Seq<BitMove>)
    requires
        e.only_draws(e.path_hashes@, bb),
        all_legal(bb, moves),
    ensures
        draws_listed(e, bb, moves),
{
    reveal(draws_listed);
    reveal(BitBoardEngine::only_draws);
    assert forall|j: int| 0 <= j < moves.len() implies e.drawn_at(e.path_hashes@, bb.played(#[trigger] moves[j])) by {
        assert(is_legal(bb, moves[j]));
    }
}

/// What is a draw, and what it scores, depends on the settings only.
#[verifier::spinoff_prover]
pub(crate) proof fn lemma_drawn_fixed<L: OutputLayer>(
    a: BitBoardEngine<L>,
    b: BitBoardEngine<L>,
    path: Seq<u64>,
    c: BitBoard,
)
    requires
        a.fixed() == b.fixed(),
    ensures
        a.drawn_at(path, c) == b.drawn_at(path, c),
        a.root_player == b.root_player ==> a.draw_value() == b.draw_value(),
        a.tablebase == b.tablebase,
{
    let fa = a.fixed();
    let fb = b.fixed();
    assert(fa.game_history == fb.game_history && fa.tablebase == fb.tablebase && fa.no_progress_limit
        == fb.no_progress_limit && fa.contempt == fb.contempt);
}

/// The cases of a leaf's value, below the current node.
#[verifier::spinoff_prover]
proof fn lemma_leaf_cases<L: OutputLayer>(e: BitBoardEngine<L>, c: BitBoard)
    requires
        e.path_hashes@.len() > 0,
    ensures
        e.is_draw_node(c) ==> e.leaf_value(e.root_player, e.path_hashes@, c) == e.draw_value(),
        !e.is_draw_node(c) ==> (e.table_value(c) matches Some(v) ==> e.leaf_value(e.root_player, e.path_hashes@, c)
            == e.table_score(v)),
        !e.is_draw_node(c) && e.table_value(c) is None ==> e.leaf_value(e.root_player, e.path_hashes@, c)
            == quiet_value(
            QuietRules { weights: e.weights, qs_mode: e.knobs.qs_mode, ply: e.path_hashes@.len() as int },
            c,
            0,
        ),
{
    reveal(BitBoardEngine::leaf_value);
}

/// The value of a leaf depends on the fixed settings only.
#[verifier::spinoff_prover]
pub(crate) proof fn lemma_leaf_fixed<L: OutputLayer>(
    a: BitBoardEngine<L>,
    b: BitBoardEngine<L>,
    root: Player,
    path: Seq<u64>,
    c: BitBoard,
)
    requires
        a.fixed() == b.fixed(),
    ensures
        a.leaf_value(root, path, c) == b.leaf_value(root, path, c),
{
    reveal(BitBoardEngine::leaf_value);
    let fa = a.fixed();
    let fb = b.fixed();
    assert(fa.game_history == fb.game_history && fa.tablebase == fb.tablebase && fa.no_progress_limit
        == fb.no_progress_limit && fa.contempt == fb.contempt && fa.weights == fb.weights && fa.knobs == fb.knobs);
}

/// The table holds nothing on the positions behind the listed moves.
#[verifier::opaque]
spec fn clear_list<L: OutputLayer>(e: BitBoardEngine<L>, bb: BitBoard, moves: Seq<BitMove>) -> bool {
    forall|j: int| 0 <= j < moves.len() ==> e.tt.find(bb.played(#[trigger] moves[j]).hash) is None
}

#[verifier::spinoff_prover]
proof fn lemma_clear_at<L: OutputLayer>(e: BitBoardEngine<L>, bb: BitBoard, moves: Seq<BitMove>, j: int)
    requires
        clear_list(e, bb, moves),
        0 <= j < moves.len(),
    ensures
        e.tt.find(bb.played(moves[j]).hash) is None,
{
    reveal(clear_list);
}

#[verifier::spinoff_prover]
proof fn lemma_clear_list<L: OutputLayer>(e: BitBoardEngine<L>, bb: BitBoard, moves: Seq<BitMove>)
    requires
        e.clear_below(bb),
        all_legal(bb, moves),
    ensures
        clear_list(e, bb, moves),
{
    reveal(clear_list);
    reveal(BitBoardEngine::clear_below);
    assert forall|j: int| 0 <= j < moves.len() implies e.tt.find(bb.played(#[trigger] moves[j]).hash) is None by {
        assert(is_legal(bb, moves[j]));
    }
}

/// A legal move is in the list, as a move with the same effect.
#[verifier::spinoff_prover]
pub(crate) proof fn lemma_legal_listed(bb: BitBoard, listed: Seq<BitMove>, k: BitMove)
    requires
        lists_legal(listed, bb@),
        all_legal(bb, listed),
        is_legal(bb, k),
    ensures
        exists|i: int| 0 <= i < listed.len() && bb.played(#[trigger] listed[i]) == bb.played(k),
{
    reveal(is_legal);
    let kind = |a: Action| bb@.legal(a);
    assert(kind(k@));
    assert(has_action(listed, 0, k@));
    let i = choose|i: int| 0 <= i < listed.len() && (#[trigger] listed[i])@ == k@;
    assert(is_legal(bb, listed[i]));
    lemma_played_same(bb, listed[i], k);
}

/// What wins on the spot depends on the fixed settings only.
#[verifier::spinoff_prover]
pub(crate) proof fn lemma_takes_fixed<L: OutputLayer>(
    a: BitBoardEngine<L>,
    b: BitBoardEngine<L>,
    path: Seq<u64>,
    bb: BitBoard,
)
    requires
        a.fixed() == b.fixed(),
    ensures
        forall|m: BitMove| #[trigger] a.takes(path, bb, m) == b.takes(path, bb, m),
        forall|m: BitMove| a.takes(path, bb, m) == #[trigger] b.takes(path, bb, m),
{
    let fa = a.fixed();
    let fb = b.fixed();
    assert(fa.game_history == fb.game_history && fa.tablebase == fb.tablebase && fa.no_progress_limit
        == fb.no_progress_limit);
}

/// What wins now, and where all is drawn, depends on the settings only.
#[verifier::spinoff_prover]
proof fn lemma_sees_fixed<L: OutputLayer>(a: BitBoardEngine<L>, b: BitBoardEngine<L>, path: Seq<u64>, bb: BitBoard)
    requires
        a.fixed() == b.fixed(),
    ensures
        forall|m: BitMove| #[trigger] a.wins_now(path, bb, m) == b.wins_now(path, bb, m),
        forall|m: BitMove| a.wins_now(path, bb, m) == #[trigger] b.wins_now(path, bb, m),
        a.only_draws(path, bb) == b.only_draws(path, bb),
        a.tablebase == b.tablebase,
        a.root_player == b.root_player ==> a.draw_value() == b.draw_value(),
        a.razor_margin(1) == b.razor_margin(1),
        a.knobs == b.knobs,
        a.contempt == b.contempt,
        a.nnue == b.nnue,
        a.weights == b.weights,
{
    let fa = a.fixed();
    let fb = b.fixed();
    assert(fa.game_history == fb.game_history && fa.tablebase == fb.tablebase && fa.no_progress_limit
        == fb.no_progress_limit && fa.contempt == fb.contempt && fa.knobs == fb.knobs && fa.nnue == fb.nnue && fa.weights
        == fb.weights);
    reveal(BitBoardEngine::only_draws);
    assert forall|c: BitBoard| #[trigger] a.drawn_at(path, c) == b.drawn_at(path, c) by {}
    if a.only_draws(path, bb) {
        assert forall|m: BitMove| #[trigger] is_legal(bb, m) implies b.drawn_at(path, bb.played(m)) by {
            assert(a.drawn_at(path, bb.played(m)));
        }
    }
    if b.only_draws(path, bb) {
        assert forall|m: BitMove| #[trigger] is_legal(bb, m) implies a.drawn_at(path, bb.played(m)) by {
            assert(a.drawn_at(path, bb.played(m)) == b.drawn_at(path, bb.played(m)));
        }
    }
}

/// Which positions the table knows depends on its entries only.
#[verifier::spinoff_prover]
proof fn lemma_clear_same<L: OutputLayer>(a: BitBoardEngine<L>, b: BitBoardEngine<L>, bb: BitBoard)
    requires
        a.tt.clusters == b.tt.clusters,
    ensures
        a.clear_below(bb) == b.clear_below(bb),
{
    reveal(BitBoardEngine::clear_below);
    assert forall|h: u64| #[trigger] a.tt.find(h) == b.tt.find(h) by {}
    if a.clear_below(bb) {
        assert forall|m: BitMove| #[trigger] is_legal(bb, m) implies b.tt.find(bb.played(m).hash) is None by {
            assert(a.tt.find(bb.played(m).hash) is None);
        }
    }
    if b.clear_below(bb) {
        assert forall|m: BitMove| #[trigger] is_legal(bb, m) implies a.tt.find(bb.played(m).hash) is None by {
            assert(b.tt.find(bb.played(m).hash) is None);
        }
    }
}

/// The answers depend on the table's entries, the settings, the stop flag and
/// whether evaluations are plain.
#[verifier::spinoff_prover]
pub(crate) proof fn lemma_same_answers<L: OutputLayer>(a: BitBoardEngine<L>, b: BitBoardEngine<L>)
    requires
        a.fixed() == b.fixed(),
        a.tt.clusters == b.tt.clusters,
        a.search_stopped == b.search_stopped,
        a.plain() ==> b.plain(),
        a.keyed_table() ==> b.keyed_table(),
        a.eval_cache == b.eval_cache,
    ensures
        forall|bb: BitBoard, depth: u8, alpha: i32, beta: i32, path: Seq<u64>, r: (i32, Option<BitMove>), stopped: bool|
            #[trigger]
            b.answers(bb, depth, alpha, beta, path, r, stopped) ==> a.answers(bb, depth, alpha, beta, path, r, stopped),
{
    assert forall|
        bb: BitBoard,
        depth: u8,
        alpha: i32,
        beta: i32,
        path: Seq<u64>,
        r: (i32, Option<BitMove>),
        stopped: bool,
    | #[trigger] b.answers(bb, depth, alpha, beta, path, r, stopped) implies a.answers(
        bb,
        depth,
        alpha,
        beta,
        path,
        r,
        stopped,
    ) by {
        lemma_takes_fixed(a, b, path, bb);
        lemma_sees_fixed(a, b, path, bb);
        assert(a.sees(bb, depth, alpha, beta, path, r) == b.sees(bb, depth, alpha, beta, path, r)) by {
            reveal(BitBoardEngine::sees);
            lemma_clear_same(a, b, bb);
        }
        lemma_clear_same(a, b, bb);
        assert(a.tt.find(bb.hash) == b.tt.find(bb.hash));
        assert(a.fixed().knobs == b.fixed().knobs);
    }
}

/// A move that wins on the spot stands in every reordered list of the legal
/// moves, as some move with the same effect.
#[verifier::spinoff_prover]
proof fn lemma_taking_listed<L: OutputLayer>(
    e: BitBoardEngine<L>,
    path: Seq<u64>,
    bb: BitBoard,
    m: BitMove,
    listed: Seq<BitMove>,
    sorted: Seq<BitMove>,
)
    requires
        e.takes(path, bb, m),
        lists_legal(listed, bb@),
        all_legal(bb, listed),
        listed.to_multiset() == sorted.to_multiset(),
    ensures
        exists|j: int| 0 <= j < sorted.len() && #[trigger] e.takes(path, bb, sorted[j]),
{
    reveal(is_legal);
    let kind = |a: Action| bb@.legal(a);
    assert(kind(m@));
    assert(has_action(listed, 0, m@));
    let i = choose|i: int| 0 <= i < listed.len() && (#[trigger] listed[i])@ == m@;
    assert(is_legal(bb, listed[i]));
    lemma_played_same(bb, listed[i], m);
    listed.to_multiset_ensures();
    sorted.to_multiset_ensures();
    assert(listed.contains(listed[i]));
    assert(listed.to_multiset().count(listed[i]) > 0);
    assert(sorted.contains(listed[i]));
    let j = choose|j: int| 0 <= j < sorted.len() && sorted[j] == listed[i];
    assert(listed[i]@ == m@);
    assert(!listed[i].pail_only());
    if !m.places_barrel() {
        assert(listed[i].landings() == m.landings());
        assert(listed[i].landings().last() == m.landings().last());
    }
    assert(listed[i].to_sq() == m.to_sq());
    assert(e.takes(path, bb, sorted[j]));
}

/// A move that wins now stands in every reordered list of the legal moves, as
/// some move with the same effect.
#[verifier::spinoff_prover]
proof fn lemma_quick_listed<L: OutputLayer>(
    e: BitBoardEngine<L>,
    bb: BitBoard,
    m: BitMove,
    listed: Seq<BitMove>,
    sorted: Seq<BitMove>,
)
    requires
        e.wins_now(e.path_hashes@, bb, m),
        lists_legal(listed, bb@),
        all_legal(bb, listed),
        listed.to_multiset() == sorted.to_multiset(),
    ensures
        exists|j: int| 0 <= j < sorted.len() && #[trigger] e.wins_now(e.path_hashes@, bb, sorted[j]),
{
    reveal(is_legal);
    let kind = |a: Action| bb@.legal(a);
    assert(kind(m@));
    assert(has_action(listed, 0, m@));
    let i = choose|i: int| 0 <= i < listed.len() && (#[trigger] listed[i])@ == m@;
    assert(is_legal(bb, listed[i]));
    lemma_played_same(bb, listed[i], m);
    listed.to_multiset_ensures();
    sorted.to_multiset_ensures();
    assert(listed.contains(listed[i]));
    assert(listed.to_multiset().count(listed[i]) > 0);
    assert(sorted.contains(listed[i]));
    let j = choose|j: int| 0 <= j < sorted.len() && sorted[j] == listed[i];
    assert(!listed[i].pail_only());
    if !m.places_barrel() {
        assert(listed[i].landings() == m.landings());
        assert(listed[i].landings().last() == m.landings().last());
    }
    assert(listed[i].to_sq() == m.to_sq());
    assert(e.wins_now(e.path_hashes@, bb, sorted[j]));
}

/// A reordered list of legal moves is a list of legal moves.
#[verifier::spinoff_prover]
proof fn lemma_permuted_legal(bb: BitBoard, a: Seq<BitMove>, b: Seq<BitMove>)
    requires
        all_legal(bb, a),
        a.to_multiset() == b.to_multiset(),
    ensures
        all_legal(bb, b),
{
    a.to_multiset_ensures();
    b.to_multiset_ensures();
    assert forall|i: int| 0 <= i < b.len() implies is_legal(bb, #[trigger] b[i]) by {
        assert(b.contains(b[i]));
        assert(b.to_multiset().count(b[i]) > 0);
        assert(a.contains(b[i]));
        let k = choose|k: int| 0 <= k < a.len() && a[k] == b[i];
        assert(is_legal(bb, a[k]));
    }
}

} // verus!
