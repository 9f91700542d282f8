//! The steps of a search without pruning: what each part of it owes of the
//! plain value.
use vstd::prelude::*;
use crate::bitboard::BitBoard;
use crate::bitmove::BitMove;
use crate::board::Player;
use crate::engine::{score_ok, within, BitBoardEngine, OutputLayer};
use crate::engine_state::{tells_eval, MILD_EVAL};
use crate::heuristic::heuristic_of;
use crate::movegen::lists_legal;
use crate::node::{all_legal, board_ok, from_tt, is_legal, keyed, to_tt, win_score_of};
use crate::ordering::trunc_div;
use crate::plain_search::{
    all_weighed, behind, lemma_behind, lemma_bounds_wider, lemma_found_tells, lemma_no_repeat, lemma_plain_child,
    lemma_plain_parts, lemma_plain_place, lemma_plain_setup, lemma_plainly_cache, lemma_plainly_same,
    lemma_plainly_store, lemma_store_tells, lemma_weighed_bounds, lemma_weighed_start, lemma_weighed_step,
    plain_values, slot_tells, table_tells, weighed, SearchTree, PLAIN_LIMIT,
};
use crate::quiet::{bounds, known_by_hash, lemma_known_parts, quiet_value};
use crate::search::{limited, NodeFacts, FUTILITY_MARGINS};
use crate::tt::{shallower, TTEntry, TTFlag};

verus! {

impl<L: OutputLayer> BitBoardEngine<L> {
    /// Neither a rule nor a table decides the node, only a finished game does.
    pub open spec fn undecided(&self, bb: BitBoard) -> bool {
        self.plain_rules().at_once(bb, self.ply_of()) == match bb@.winner() {
            Some(w) => Some(win_score_of(w, self.ply_of())),
            None => None,
        }
    }

    /// The move of a node that the table knew nothing of, or not from as deep,
    /// reaches the plain value inside the window.
    pub open spec fn plain_move(
        &self,
        t: SearchTree,
        ply: int,
        bb: BitBoard,
        depth: int,
        alpha: int,
        beta: int,
        r: (i32, Option<BitMove>),
    ) -> bool {
        shallower(self.tt.find(bb.hash), depth) && depth > 0 && alpha < r.0 < beta ==> (r.1 matches Some(m) ==> is_legal(bb, m)
            && t.value(self.plain_rules(), bb.played(m), ply + 1) == r.0)
    }

    /// What a search of a position of the tree owes of its move.
    #[verifier::opaque]
    pub open spec fn plain_reach(
        &self,
        after: Self,
        t: SearchTree,
        bb: BitBoard,
        depth: int,
        alpha: int,
        beta: int,
        r: (i32, Option<BitMove>),
    ) -> bool {
        self.searches_plainly(t) && self.stands_in(t, self.path_hashes@, bb, depth) && alpha <= PLAIN_LIMIT && beta
            >= -PLAIN_LIMIT && !after.search_stopped ==> self.plain_move(
            t,
            self.path_hashes@.len() as int,
            bb,
            depth,
            alpha,
            beta,
            r,
        )
    }

    /// What the search below a node of the tree owes.
    #[verifier::opaque]
    pub open spec fn plain_goal(
        &self,
        after: Self,
        t: SearchTree,
        bb: BitBoard,
        depth: int,
        alpha: int,
        beta: int,
        r: (i32, Option<BitMove>),
    ) -> bool {
        self.plain_inside(t, bb, depth) && self.undecided(bb) && alpha <= PLAIN_LIMIT && beta >= -PLAIN_LIMIT
            && !after.search_stopped ==> {
            &&& after.searches_plainly(t)
            &&& -PLAIN_LIMIT <= r.0 <= PLAIN_LIMIT
            &&& bounds(r.0 as int, t.value(self.plain_rules(), bb, self.ply_of()), alpha, beta)
            &&& self.plain_move(t, self.ply_of(), bb, depth, alpha, beta, r)
        }
    }

    /// The window was narrowed by true bounds only.
    #[verifier::opaque]
    pub open spec fn plain_window(
        &self,
        t: SearchTree,
        bb: BitBoard,
        depth: int,
        lo: int,
        hi: int,
        alpha: int,
        beta: int,
    ) -> bool {
        let v = t.value(self.plain_rules(), bb, self.ply_of());
        self.plain_inside(t, bb, depth) && lo <= PLAIN_LIMIT && hi >= -PLAIN_LIMIT ==> {
            &&& lo <= alpha <= PLAIN_LIMIT
            &&& -PLAIN_LIMIT <= beta <= hi
            &&& alpha != lo ==> v >= alpha
            &&& beta != hi ==> v <= beta
        }
    }

    /// Nothing is pruned of a node with these facts.
    #[verifier::opaque]
    pub open spec fn leaves_all(&self, n: NodeFacts, alpha: i32, beta: i32) -> bool {
        self.unpruned() && -MILD_EVAL <= n.static_eval <= MILD_EVAL && alpha <= PLAIN_LIMIT && beta >= -PLAIN_LIMIT
    }

    /// An inner node of the tree: its evaluation is the heuristic's, and its
    /// window was narrowed by true bounds only.
    #[verifier::opaque]
    pub open spec fn plain_facts(&self, t: SearchTree, bb: BitBoard, n: NodeFacts, first_alpha: i32, alpha: i32, beta: i32) -> bool {
        &&& self.plain_inside(t, bb, n.depth as int)
        &&& self.undecided(bb)
        &&& n.ply == self.ply_of()
        &&& alpha <= PLAIN_LIMIT
        &&& beta >= -PLAIN_LIMIT
        &&& -MILD_EVAL <= n.static_eval <= MILD_EVAL
        &&& n.static_eval == heuristic_of(self.weights, bb)
        &&& first_alpha <= alpha
        &&& alpha != first_alpha ==> t.value(self.plain_rules(), bb, n.ply as int) >= alpha
    }

    /// What the first `i` moves of an inner node have shown.
    #[verifier::opaque]
    pub open spec fn plain_walk(
        &self,
        after: Self,
        t: SearchTree,
        bb: BitBoard,
        n: NodeFacts,
        moves: Seq<BitMove>,
        i: int,
        best: int,
        m: Option<BitMove>,
        lo: int,
        hi: int,
    ) -> bool {
        self.plain_inside(t, bb, n.depth as int) && lo <= PLAIN_LIMIT && hi >= -PLAIN_LIMIT && !after.search_stopped ==> {
            &&& after.searches_plainly(t)
            &&& m is Some ==> -PLAIN_LIMIT <= best <= PLAIN_LIMIT
            &&& weighed(bb, moves, i, plain_values(self.plain_rules(), (n.depth - 1) as nat, n.ply + 1), best, m, lo, hi)
        }
    }

    /// What all moves of an inner node have shown.
    #[verifier::opaque]
    pub open spec fn plain_walked(
        &self,
        after: Self,
        t: SearchTree,
        bb: BitBoard,
        n: NodeFacts,
        moves: Seq<BitMove>,
        best: int,
        m: BitMove,
        lo: int,
        hi: int,
    ) -> bool {
        self.plain_inside(t, bb, n.depth as int) && lo <= PLAIN_LIMIT && hi >= -PLAIN_LIMIT && !after.search_stopped ==> {
            &&& after.searches_plainly(t)
            &&& -PLAIN_LIMIT <= best <= PLAIN_LIMIT
            &&& all_weighed(bb, moves, plain_values(self.plain_rules(), (n.depth - 1) as nat, n.ply + 1), best, m, lo, hi)
        }
    }

    /// What one move of an inner node has shown.
    #[verifier::opaque]
    pub open spec fn plain_tried(
        &self,
        after: Self,
        t: SearchTree,
        bb: BitBoard,
        n: NodeFacts,
        m: BitMove,
        searched: int,
        alpha: int,
        beta: int,
        v: int,
    ) -> bool {
        self.plain_inside(t, bb, n.depth as int) && alpha <= PLAIN_LIMIT && beta >= -PLAIN_LIMIT && narrow_enough(
            n,
            searched,
            alpha,
            beta,
        ) && !after.search_stopped ==> {
            &&& after.searches_plainly(t)
            &&& -PLAIN_LIMIT <= v <= PLAIN_LIMIT
            &&& bounds(v, t.value(self.plain_rules(), bb.played(m), self.path_hashes@.len() as int), alpha, beta)
        }
    }
}

/// After the first move the window is closed on the side of the best score.
#[verifier::opaque]
pub open spec fn narrow_enough(n: NodeFacts, searched: int, alpha: int, beta: int) -> bool {
    &&& searched > 0 && n.maximizing ==> alpha >= -PLAIN_LIMIT
    &&& searched > 0 && !n.maximizing ==> beta <= PLAIN_LIMIT
}

/// With everything switched off nothing is pruned and no move is futile.
pub(crate) proof fn lemma_nothing_pruned<L: OutputLayer>(e: BitBoardEngine<L>, n: NodeFacts, alpha: i32, beta: i32)
    requires
        e.leaves_all(n, alpha, beta),
        n.ok(),
    ensures
        !e.razors(n, alpha, beta),
        e.reverse_futility_score(n, alpha, beta) is None,
        forall|near_goal: bool| !#[trigger] e.null_move_fits(n, near_goal, alpha, beta),
        !e.futile(n, alpha, beta),
{
    reveal(BitBoardEngine::leaves_all);
    let slope = e.knobs.razor_slope as int;
    let d = n.depth as int;
    assert(slope * d >= 0) by (nonlinear_arith)
        requires
            slope >= 0,
            d >= 0,
    ;
    if d <= 8 {
        let m = FUTILITY_MARGINS@[if d < 8 { d } else { 8 }] as int;
        assert(d == 1 || d == 2 || d == 3 || d == 4 || d == 5 || d == 6 || d == 7 || d == 8);
        assert(m >= 80);
        let scale = e.knobs.fut_scale as int;
        assert(m * scale >= 72_000_000) by (nonlinear_arith)
            requires
                m >= 80,
                scale >= 900_000,
        ;
        assert(trunc_div(m * scale, 100) >= 720_000);
        assert(trunc_div(trunc_div(m * scale, 100), 2) >= 360_000);
    }
}

/// With an empty table of reductions nothing is reduced.
pub(crate) proof fn lemma_no_reduction<L: OutputLayer>(e: BitBoardEngine<L>, n: NodeFacts, m: BitMove, searched: int, p: Player)
    requires
        e.unpruned(),
        within(e.history@, 1296, 0, 10_000),
        m.valid(),
        searched >= 0,
    ensures
        e.reduction_of(n, m, searched, p) == 0,
{
}

/// What plain values are judged by depends on the settings only.
pub(crate) proof fn lemma_rules_fixed<L: OutputLayer>(a: BitBoardEngine<L>, b: BitBoardEngine<L>)
    requires
        a.fixed() == b.fixed(),
        a.root_player == b.root_player,
    ensures
        a.plain_rules() == b.plain_rules(),
        a.weights == b.weights,
        a.knobs == b.knobs,
        forall|t: SearchTree, path: Seq<u64>, c: BitBoard, d: int|
            a.stands_in(t, path, c, d) == #[trigger] b.stands_in(t, path, c, d),
{
    let fa = a.fixed();
    let fb = b.fixed();
    assert(fa.weights == fb.weights && fa.contempt == fb.contempt && fa.knobs == fb.knobs && fa.tablebase == fb.tablebase
        && fa.game_history == fb.game_history && fa.no_progress_limit == fb.no_progress_limit);
    reveal(BitBoardEngine::stands_in);
}

/// Draws and table values of the tree's positions are their plain values; what
/// neither decides is undecided.
pub(crate) proof fn lemma_plain_cases<L: OutputLayer>(e: BitBoardEngine<L>, t: SearchTree, bb: BitBoard, depth: int)
    requires
        e.searches_plainly(t),
        e.stands_in(t, e.path_hashes@, bb, depth),
        depth >= 0,
    ensures
        ({
            let ply = e.path_hashes@.len() as int;
            let v = t.value(e.plain_rules(), bb, ply);
            &&& e.is_draw_node(bb) ==> v == e.draw_value() && -PLAIN_LIMIT <= v <= PLAIN_LIMIT
            &&& !e.is_draw_node(bb) && ply > 0 ==> (e.table_value(bb) matches Some(x) ==> v == e.table_score(x)
                && -PLAIN_LIMIT <= v <= PLAIN_LIMIT)
            &&& !e.is_draw_node(bb) && (ply == 0 || e.table_value(bb) is None) ==> e.plain_rules().at_once(bb, ply)
                == match bb@.winner() {
                Some(w) => Some(win_score_of(w, ply)),
                None => None,
            }
        }),
{
    lemma_plain_setup(e, t);
    lemma_plain_place(e, t, e.path_hashes@, bb, depth);
    lemma_no_repeat(t, e.plain_rules(), e.path_hashes@, bb);
    lemma_plain_parts(e.plain_rules(), bb, depth, e.path_hashes@.len() as int);
}

/// A node that a rule or a table decides owes no search.
pub(crate) proof fn lemma_goal_at_once<L: OutputLayer>(
    a: BitBoardEngine<L>,
    b: BitBoardEngine<L>,
    t: SearchTree,
    bb: BitBoard,
    depth: int,
    alpha: int,
    beta: int,
    r: (i32, Option<BitMove>),
)
    requires
        a.fixed() == b.fixed(),
        a.root_player == b.root_player,
        a.tt.clusters == b.tt.clusters,
        a.eval_cache == b.eval_cache,
        a.plain() ==> b.plain(),
        depth >= 0,
        r.1 is None,
        a.is_draw_node(bb) && r.0 == a.draw_value() || !a.is_draw_node(bb) && a.path_hashes@.len() > 0 && a.table_value(bb)
            is Some && r.0 == a.table_score(a.table_value(bb)->0),
    ensures
        a.plainly(b, t, a.path_hashes@, bb, depth, alpha, beta, r.0 as int),
        a.plain_reach(b, t, bb, depth, alpha, beta, r),
{
    reveal(BitBoardEngine::plainly);
    reveal(BitBoardEngine::plain_reach);
    lemma_plainly_same(a, b, t);
    if a.searches_plainly(t) && a.stands_in(t, a.path_hashes@, bb, depth) {
        lemma_plain_cases(a, t, bb, depth);
    }
}

/// What is found below a node on the path holds of the node.
pub(crate) proof fn lemma_goal_left<L: OutputLayer>(
    before: BitBoardEngine<L>,
    entered: BitBoardEngine<L>,
    searched: BitBoardEngine<L>,
    after: BitBoardEngine<L>,
    t: SearchTree,
    bb: BitBoard,
    depth: int,
    alpha: int,
    beta: int,
    r: (i32, Option<BitMove>),
)
    requires
        entered == (BitBoardEngine { path_hashes: entered.path_hashes, ..before }),
        entered.path_hashes@ == before.path_hashes@.push(bb.hash),
        before.plain() ==> entered.plain(),
        searched.fixed() == after.fixed(),
        searched.root_player == after.root_player,
        searched.tt.clusters == after.tt.clusters,
        searched.eval_cache == after.eval_cache,
        searched.search_stopped == after.search_stopped,
        searched.plain() ==> after.plain(),
        depth >= 0,
        !before.is_draw_node(bb),
        before.path_hashes@.len() == 0 || before.table_value(bb) is None,
        entered.plain_goal(searched, t, bb, depth, alpha, beta, r),
    ensures
        before.plainly(after, t, before.path_hashes@, bb, depth, alpha, beta, r.0 as int),
        before.plain_reach(after, t, bb, depth, alpha, beta, r),
{
    reveal(BitBoardEngine::plainly);
    reveal(BitBoardEngine::plain_reach);
    reveal(BitBoardEngine::plain_goal);
    reveal(BitBoardEngine::plain_inside);
    lemma_plainly_same(before, entered, t);
    lemma_plainly_same(searched, after, t);
    assert(entered.path_hashes@.drop_last() =~= before.path_hashes@);
    if before.searches_plainly(t) && before.stands_in(t, before.path_hashes@, bb, depth) {
        lemma_plain_cases(before, t, bb, depth);
    }
}

/// What a probe of the table says of a node of the tree: an exact entry is the
/// value, and a bound narrows the window truly or leaves it with a true bound.
pub(crate) proof fn lemma_window_entry<L: OutputLayer>(
    a: BitBoardEngine<L>,
    b: BitBoardEngine<L>,
    t: SearchTree,
    bb: BitBoard,
    depth: int,
    lo: int,
    hi: int,
    x: TTEntry,
)
    requires
        a.wf(),
        a.fixed() == b.fixed(),
        a.root_player == b.root_player,
        a.tt.clusters == b.tt.clusters,
        a.eval_cache == b.eval_cache,
        a.plain() ==> b.plain(),
        depth >= 0,
        lo < hi,
        a.tt.find(bb.hash) == Some(x),
        a.path_hashes@.len() > 0,
    ensures
        ({
            let v = from_tt(x.score as int, a.ply_of());
            &&& x.depth >= depth && x.flag == TTFlag::Exact && score_ok(v) ==> a.plain_goal(
                b,
                t,
                bb,
                depth,
                lo,
                hi,
                (v as i32, x.best_move),
            )
            &&& x.depth >= depth && x.flag == TTFlag::LowerBound && score_ok(v) ==> if v >= hi {
                a.plain_goal(b, t, bb, depth, lo, hi, (v as i32, x.best_move))
            } else {
                a.plain_window(t, bb, depth, lo, hi, if v > lo { v } else { lo }, hi)
            }
            &&& x.depth >= depth && x.flag == TTFlag::UpperBound && score_ok(v) ==> if v <= lo {
                a.plain_goal(b, t, bb, depth, lo, hi, (v as i32, x.best_move))
            } else {
                a.plain_window(t, bb, depth, lo, hi, lo, if v < hi { v } else { hi })
            }
        }),
{
    reveal(BitBoardEngine::plain_goal);
    reveal(BitBoardEngine::plain_window);
    lemma_plainly_same(a, b, t);
    if a.plain_inside(t, bb, depth) {
        reveal(BitBoardEngine::plain_inside);
        lemma_plain_setup(a, t);
        lemma_plain_place(a, t, a.path_hashes@.drop_last(), bb, depth);
        assert(a.tt.wf()) by {
            reveal(BitBoardEngine::tables_ok);
        }
        lemma_found_tells(t, a.plain_rules(), a.tt, bb, a.ply_of());
    }
}

/// The whole window is narrowed by nothing.
pub(crate) proof fn lemma_window_same<L: OutputLayer>(a: BitBoardEngine<L>, t: SearchTree, bb: BitBoard, depth: int, lo: int, hi: int)
    ensures
        a.plain_window(t, bb, depth, lo, hi, lo, hi),
{
    reveal(BitBoardEngine::plain_window);
}

/// In a plain search no depth is taken off.
pub(crate) proof fn lemma_full_depth<L: OutputLayer>(a: BitBoardEngine<L>, b: BitBoardEngine<L>, t: SearchTree, bb: BitBoard, depth: int)
    requires
        a.fixed() == b.fixed(),
        a.root_player == b.root_player,
    ensures
        a.plain_inside(t, bb, depth) ==> b.knobs.iir_depth > 255,
{
    lemma_rules_fixed(a, b);
    if a.plain_inside(t, bb, depth) {
        reveal(BitBoardEngine::plain_inside);
        lemma_plain_setup(a, t);
    }
}

/// A finished game owes its score.
pub(crate) proof fn lemma_goal_won<L: OutputLayer>(
    a: BitBoardEngine<L>,
    b: BitBoardEngine<L>,
    t: SearchTree,
    bb: BitBoard,
    depth: int,
    lo: int,
    hi: int,
    r: (i32, Option<BitMove>),
)
    requires
        a.fixed() == b.fixed(),
        a.root_player == b.root_player,
        a.tt.clusters == b.tt.clusters,
        a.eval_cache == b.eval_cache,
        a.plain() ==> b.plain(),
        depth >= 0,
        bb@.winner() matches Some(w) && r.0 == win_score_of(w, a.ply_of()),
        r.1 is None,
    ensures
        a.plain_goal(b, t, bb, depth, lo, hi, r),
{
    reveal(BitBoardEngine::plain_goal);
    lemma_plainly_same(a, b, t);
    if a.plain_inside(t, bb, depth) {
        reveal(BitBoardEngine::plain_inside);
        lemma_plain_setup(a, t);
        lemma_plain_place(a, t, a.path_hashes@.drop_last(), bb, depth);
        lemma_plain_parts(a.plain_rules(), bb, depth, a.ply_of());
    }
}

/// A leaf owes the value of quiescence.
pub(crate) proof fn lemma_goal_quiet<L: OutputLayer>(
    a: BitBoardEngine<L>,
    quiet: BitBoardEngine<L>,
    b: BitBoardEngine<L>,
    t: SearchTree,
    bb: BitBoard,
    depth: int,
    lo: int,
    hi: int,
    alpha: int,
    beta: int,
    r: (i32, Option<BitMove>),
)
    requires
        a.fixed() == quiet.fixed(),
        a.root_player == quiet.root_player,
        a.path_hashes@ == quiet.path_hashes@,
        a.tt.clusters == quiet.tt.clusters,
        a.eval_cache == quiet.eval_cache,
        a.plain() ==> quiet.plain(),
        quiet.quiet_step(b),
        quiet.calm() ==> b.calm(),
        quiet.plain() && keyed(bb) ==> b.plain(),
        quiet.plain() && keyed(bb) && known_by_hash(quiet.weights, bb, 7) ==> bounds(
            r.0 as int,
            quiet_value(quiet.quiet_rules(), bb, 0),
            alpha,
            beta,
        ),
        quiet.calm() && alpha <= PLAIN_LIMIT && beta >= -PLAIN_LIMIT ==> -PLAIN_LIMIT <= r.0 <= PLAIN_LIMIT,
        a.plain_window(t, bb, depth, lo, hi, alpha, beta),
        alpha < beta,
        bb@.winner() is None,
        depth >= 0,
        a.plain_inside(t, bb, depth) ==> depth == 0,
        r.1 is None,
    ensures
        a.plain_goal(b, t, bb, depth, lo, hi, r),
{
    reveal(BitBoardEngine::plain_goal);
    lemma_plainly_same(a, quiet, t);
    if a.plain_inside(t, bb, depth) && a.undecided(bb) && lo <= PLAIN_LIMIT && hi >= -PLAIN_LIMIT {
        reveal(BitBoardEngine::plain_inside);
        reveal(BitBoardEngine::plain_window);
        lemma_plain_setup(quiet, t);
        lemma_plain_place(a, t, a.path_hashes@.drop_last(), bb, depth);
        lemma_plain_parts(a.plain_rules(), bb, depth, a.ply_of());
        lemma_rules_fixed(a, quiet);
        assert(quiet.fixed() == b.fixed());
        lemma_plainly_cache(quiet, b, t);
        let v = t.value(a.plain_rules(), bb, a.ply_of());
        assert(v == quiet_value(quiet.quiet_rules(), bb, 0));
        lemma_bounds_wider(r.0 as int, v, alpha, beta, lo, hi);
    }
}

/// The facts of an inner node of the tree.
pub(crate) proof fn lemma_goal_judged<L: OutputLayer>(
    a: BitBoardEngine<L>,
    probed: BitBoardEngine<L>,
    b: BitBoardEngine<L>,
    t: SearchTree,
    bb: BitBoard,
    n: NodeFacts,
    depth: int,
    lo: int,
    hi: int,
    alpha: int,
    beta: int,
)
    requires
        a.fixed() == probed.fixed(),
        a.root_player == probed.root_player,
        a.path_hashes@ == probed.path_hashes@,
        a.tt.clusters == probed.tt.clusters,
        a.eval_cache == probed.eval_cache,
        a.plain() ==> probed.plain(),
        probed.carries(b),
        probed.stays(b),
        probed.stays_true(b, bb),
        probed.calm() ==> -MILD_EVAL <= n.static_eval <= MILD_EVAL,
        probed.plain() && keyed(bb) && tells_eval(probed.weights, bb) ==> n.static_eval == heuristic_of(probed.weights, bb),
        n.ply == a.ply_of(),
        a.plain_inside(t, bb, depth) ==> depth == n.depth,
        a.plain_window(t, bb, depth, lo, hi, alpha, beta),
        i32::MIN <= lo,
        hi <= i32::MAX,
        i32::MIN <= alpha < beta <= i32::MAX,
    ensures
        a.plain_inside(t, bb, depth) && a.undecided(bb) && lo <= PLAIN_LIMIT && hi >= -PLAIN_LIMIT ==> b.plain_facts(
            t,
            bb,
            n,
            lo as i32,
            alpha as i32,
            beta as i32,
        ) && b.leaves_all(n, alpha as i32, beta as i32),
{
    if a.plain_inside(t, bb, depth) && a.undecided(bb) && lo <= PLAIN_LIMIT && hi >= -PLAIN_LIMIT {
        reveal(BitBoardEngine::plain_inside);
        reveal(BitBoardEngine::plain_window);
        reveal(BitBoardEngine::plain_facts);
        reveal(BitBoardEngine::leaves_all);
        lemma_plainly_same(a, probed, t);
        lemma_plain_setup(probed, t);
        lemma_plain_place(a, t, a.path_hashes@.drop_last(), bb, depth);
        lemma_rules_fixed(a, probed);
        lemma_rules_fixed(probed, b);
        lemma_known_parts(probed.weights, bb, depth + 7);
        lemma_plainly_cache(probed, b, t);
        lemma_plain_setup(b, t);
    }
}

/// What is found in a truly narrowed window holds in the whole.
pub(crate) proof fn lemma_goal_wider<L: OutputLayer>(
    a: BitBoardEngine<L>,
    judged: BitBoardEngine<L>,
    b: BitBoardEngine<L>,
    t: SearchTree,
    bb: BitBoard,
    n: NodeFacts,
    depth: int,
    lo: int,
    hi: int,
    alpha: int,
    beta: int,
    r: (i32, Option<BitMove>),
)
    requires
        a.fixed() == judged.fixed(),
        a.root_player == judged.root_player,
        a.path_hashes@ == judged.path_hashes@,
        a.tt.clusters == judged.tt.clusters,
        a.plain_inside(t, bb, depth) ==> depth == n.depth,
        a.plain_window(t, bb, depth, lo, hi, alpha, beta),
        alpha < beta,
        i32::MIN <= lo,
        i32::MIN <= alpha,
        beta <= i32::MAX,
        a.plain_inside(t, bb, depth) && a.undecided(bb) && lo <= PLAIN_LIMIT && hi >= -PLAIN_LIMIT ==> judged.plain_facts(
            t,
            bb,
            n,
            lo as i32,
            alpha as i32,
            beta as i32,
        ) && judged.plain_goal(b, t, bb, n.depth as int, alpha, beta, r),
        shallower(a.tt.find(bb.hash), depth) ==> alpha == lo && beta == hi,
    ensures
        a.plain_goal(b, t, bb, depth, lo, hi, r),
{
    reveal(BitBoardEngine::plain_goal);
    if a.plain_inside(t, bb, depth) && a.undecided(bb) && lo <= PLAIN_LIMIT && hi >= -PLAIN_LIMIT && !b.search_stopped {
        reveal(BitBoardEngine::plain_window);
        reveal(BitBoardEngine::plain_facts);
        lemma_rules_fixed(a, judged);
        let v = t.value(a.plain_rules(), bb, a.ply_of());
        lemma_bounds_wider(r.0 as int, v, alpha, beta, lo, hi);
        assert(judged.tt.find(bb.hash) == a.tt.find(bb.hash));
    }
}

/// Nothing is pruned of an inner node of the tree.
pub(crate) proof fn lemma_facts_leave<L: OutputLayer>(
    e: BitBoardEngine<L>,
    t: SearchTree,
    bb: BitBoard,
    n: NodeFacts,
    first_alpha: i32,
    alpha: i32,
    beta: i32,
)
    requires
        e.plain_facts(t, bb, n, first_alpha, alpha, beta),
    ensures
        e.leaves_all(n, alpha, beta),
{
    reveal(BitBoardEngine::plain_facts);
    reveal(BitBoardEngine::plain_inside);
    reveal(BitBoardEngine::leaves_all);
    lemma_plain_setup(e, t);
}

/// A side that cannot act is worth its evaluation.
pub(crate) proof fn lemma_goal_stuck<L: OutputLayer>(
    e: BitBoardEngine<L>,
    t: SearchTree,
    bb: BitBoard,
    n: NodeFacts,
    first_alpha: i32,
    alpha: i32,
    beta: i32,
)
    requires
        e.plain_facts(t, bb, n, first_alpha, alpha, beta),
        n.depth >= 1,
        bb@.winner() is None,
        forall|m: BitMove| !is_legal(bb, m),
    ensures
        e.plain_goal(e, t, bb, n.depth as int, alpha as int, beta as int, (n.static_eval, None)),
{
    reveal(BitBoardEngine::plain_facts);
    reveal(BitBoardEngine::plain_goal);
    reveal(BitBoardEngine::plain_inside);
    lemma_plain_place(e, t, e.path_hashes@.drop_last(), bb, n.depth as int);
    lemma_plain_parts(e.plain_rules(), bb, n.depth as int, n.ply as int);
}

/// With all moves searched and the result stored, an inner node's debt is paid.
pub(crate) proof fn lemma_goal_expanded<L: OutputLayer>(
    start: BitBoardEngine<L>,
    found: BitBoardEngine<L>,
    after: BitBoardEngine<L>,
    t: SearchTree,
    bb: BitBoard,
    n: NodeFacts,
    listed: Seq<BitMove>,
    moves: Seq<BitMove>,
    first_alpha: i32,
    alpha: i32,
    beta: i32,
    r: (i32, Option<BitMove>),
)
    requires
        start.plain_facts(t, bb, n, first_alpha, alpha, beta),
        n.depth >= 1,
        alpha < beta,
        bb@.winner() is None,
        start.fixed() == found.fixed(),
        start.root_player == found.root_player,
        start.fixed() == after.fixed(),
        start.root_player == after.root_player,
        found.eval_cache == after.eval_cache,
        found.search_stopped == after.search_stopped,
        lists_legal(listed, bb@),
        all_legal(bb, listed),
        listed.to_multiset() == moves.to_multiset(),
        r.1 matches Some(m) && is_legal(bb, m),
        start.plain_walked(found, t, bb, n, moves, r.0 as int, r.1->0, alpha as int, beta as int),
        after.tt.find(bb.hash) matches Some(x) && x.hash == bb.hash && x.depth == n.depth && x.score == limited(
            to_tt(r.0 as int, n.ply as int),
        ) && (x.flag == TTFlag::UpperBound || r.0 > first_alpha) && (x.flag == TTFlag::LowerBound || r.0 < beta),
        table_tells(t, start.plain_rules(), found.tt) && slot_tells(t, start.plain_rules(), after.tt.find(bb.hash))
            ==> table_tells(t, start.plain_rules(), after.tt),
    ensures
        start.plain_goal(after, t, bb, n.depth as int, alpha as int, beta as int, r),
{
    reveal(BitBoardEngine::plain_facts);
    reveal(BitBoardEngine::plain_goal);
    reveal(BitBoardEngine::plain_walked);
    if !after.search_stopped {
        let rules = start.plain_rules();
        let d = n.depth as int;
        let ply = n.ply as int;
        let v = t.value(rules, bb, ply);
        lemma_rules_fixed(start, found);
        lemma_rules_fixed(start, after);
        assert(start.stands_in(t, start.path_hashes@.drop_last(), bb, d) && start.path_hashes@.len() > 0) by {
            reveal(BitBoardEngine::plain_inside);
        }
        lemma_plain_place(start, t, start.path_hashes@.drop_last(), bb, d);
        lemma_plain_setup(found, t);
        lemma_weighed_bounds(rules, bb, listed, moves, d, ply, r.0 as int, r.1->0, alpha as int, beta as int);
        lemma_bounds_wider(r.0 as int, v, alpha as int, beta as int, first_alpha as int, beta as int);
        lemma_store_tells(t, rules, after.tt.find(bb.hash)->0, bb, ply, r.0 as int, first_alpha as int, beta as int);
        lemma_plainly_store(found, after, t);
    }
}

pub(crate) proof fn lemma_walk_start<L: OutputLayer>(
    e: BitBoardEngine<L>,
    t: SearchTree,
    bb: BitBoard,
    n: NodeFacts,
    moves: Seq<BitMove>,
    best: int,
    lo: int,
    hi: int,
)
    requires
        bb.current_player == Player::White ==> best <= lo,
        bb.current_player == Player::Black ==> best >= hi,
    ensures
        e.plain_walk(e, t, bb, n, moves, 0, best, None, lo, hi),
{
    reveal(BitBoardEngine::plain_walk);
    if e.plain_inside(t, bb, n.depth as int) {
        reveal(BitBoardEngine::plain_inside);
        lemma_weighed_start(bb, moves, plain_values(e.plain_rules(), (n.depth - 1) as nat, n.ply + 1), best, lo, hi);
    }
}

/// In a plain search no move is skipped.
pub(crate) proof fn lemma_walk_skip<L: OutputLayer>(
    start: BitBoardEngine<L>,
    e: BitBoardEngine<L>,
    t: SearchTree,
    bb: BitBoard,
    n: NodeFacts,
    moves: Seq<BitMove>,
    i: int,
    best: int,
    m: Option<BitMove>,
    lo: int,
    hi: int,
    searched: int,
)
    requires
        start.plain_walk(e, t, bb, n, moves, i, best, m, lo, hi),
        searched < usize::MAX,
        searched >= start.lmp_threshold_of(n),
    ensures
        start.plain_walk(e, t, bb, n, moves, i + 1, best, m, lo, hi),
{
    reveal(BitBoardEngine::plain_walk);
    if start.plain_inside(t, bb, n.depth as int) {
        reveal(BitBoardEngine::plain_inside);
        lemma_plain_setup(start, t);
    }
}

/// One more move has been searched.
pub(crate) proof fn lemma_walk_step<L: OutputLayer>(
    start: BitBoardEngine<L>,
    untried: BitBoardEngine<L>,
    after: BitBoardEngine<L>,
    t: SearchTree,
    bb: BitBoard,
    n: NodeFacts,
    moves: Seq<BitMove>,
    i: int,
    best: int,
    m: Option<BitMove>,
    searched: int,
    alpha: int,
    beta: int,
    lo: int,
    hi: int,
    score: int,
)
    requires
        start.keeps(untried),
        untried.keeps(after),
        start.plain_walk(untried, t, bb, n, moves, i, best, m, lo, hi),
        untried.plain_tried(after, t, bb, n, moves[i], searched, alpha, beta, score),
        n.depth >= 1,
        n.ply == start.path_hashes@.len() - 1,
        n.maximizing == (bb.current_player == Player::White),
        searched > 0 ==> m is Some,
        alpha < beta,
        n.maximizing ==> beta == hi && alpha == if best > lo {
            best
        } else {
            lo
        },
        !n.maximizing ==> alpha == lo && beta == if best < hi {
            best
        } else {
            hi
        },
        searched == 0 ==> m is None && alpha == lo && beta == hi,
        searched >= 0,
    ensures
        n.maximizing ==> if score > best {
            start.plain_walk(after, t, bb, n, moves, i + 1, score, Some(moves[i]), lo, hi)
        } else {
            start.plain_walk(after, t, bb, n, moves, i + 1, best, m, lo, hi)
        },
        !n.maximizing ==> if score < best {
            start.plain_walk(after, t, bb, n, moves, i + 1, score, Some(moves[i]), lo, hi)
        } else {
            start.plain_walk(after, t, bb, n, moves, i + 1, best, m, lo, hi)
        },
{
    reveal(BitBoardEngine::plain_walk);
    if start.plain_inside(t, bb, n.depth as int) && lo <= PLAIN_LIMIT && hi >= -PLAIN_LIMIT && !after.search_stopped {
        lemma_rules_fixed(start, untried);
        assert(start.stands_in(t, start.path_hashes@.drop_last(), bb, n.depth as int) && start.path_hashes@.len() > 0) by {
            reveal(BitBoardEngine::plain_inside);
        }
        assert(untried.plain_inside(t, bb, n.depth as int)) by {
            reveal(BitBoardEngine::plain_inside);
        }
        lemma_plain_place(start, t, start.path_hashes@.drop_last(), bb, n.depth as int);
        let rules = start.plain_rules();
        let f = plain_values(rules, (n.depth - 1) as nat, n.ply + 1);
        assert(narrow_enough(n, searched, alpha, beta)) by {
            reveal(narrow_enough);
        }
        assert(bounds(score, t.value(rules, bb.played(moves[i]), n.ply + 1), alpha, beta) && after.searches_plainly(t)
            && -PLAIN_LIMIT <= score <= PLAIN_LIMIT) by {
            reveal(BitBoardEngine::plain_tried);
        }
        lemma_behind(rules, bb, moves[i], n.depth as int, n.ply as int);
        assert(t.depth - (n.ply + 1) == n.depth - 1);
        assert(behind(bb, moves[i], f) == t.value(rules, bb.played(moves[i]), n.ply + 1));
        lemma_weighed_step(bb, moves, i, f, best, m, score, alpha, beta, lo, hi);
    }
}

/// What has been shown depends on the settings, the entries and the cache only.
pub(crate) proof fn lemma_walk_same<L: OutputLayer>(
    start: BitBoardEngine<L>,
    a: BitBoardEngine<L>,
    b: BitBoardEngine<L>,
    t: SearchTree,
    bb: BitBoard,
    n: NodeFacts,
    moves: Seq<BitMove>,
    i: int,
    best: int,
    m: Option<BitMove>,
    lo: int,
    hi: int,
)
    requires
        start.plain_walk(a, t, bb, n, moves, i, best, m, lo, hi),
        a.fixed() == b.fixed(),
        a.root_player == b.root_player,
        a.tt.clusters == b.tt.clusters,
        a.eval_cache == b.eval_cache,
        a.search_stopped == b.search_stopped,
        a.plain() ==> b.plain(),
    ensures
        start.plain_walk(b, t, bb, n, moves, i, best, m, lo, hi),
{
    reveal(BitBoardEngine::plain_walk);
    lemma_plainly_same(a, b, t);
}

/// All moves have been searched, or the window is left.
pub(crate) proof fn lemma_walk_end<L: OutputLayer>(
    start: BitBoardEngine<L>,
    e: BitBoardEngine<L>,
    t: SearchTree,
    bb: BitBoard,
    n: NodeFacts,
    moves: Seq<BitMove>,
    i: int,
    best: int,
    m: BitMove,
    lo: int,
    hi: int,
)
    requires
        start.plain_walk(e, t, bb, n, moves, i, best, Some(m), lo, hi),
        0 <= i,
        i == moves.len() || ((bb.current_player == Player::White ==> best >= hi) && (bb.current_player == Player::Black
            ==> best <= lo)),
    ensures
        start.plain_walked(e, t, bb, n, moves, best, m, lo, hi),
{
    reveal(BitBoardEngine::plain_walk);
    reveal(BitBoardEngine::plain_walked);
}

/// What a searched child shows of a move.
pub(crate) proof fn lemma_tried<L: OutputLayer>(
    start: BitBoardEngine<L>,
    entered: BitBoardEngine<L>,
    found: BitBoardEngine<L>,
    after: BitBoardEngine<L>,
    t: SearchTree,
    bb: BitBoard,
    n: NodeFacts,
    m: BitMove,
    searched: int,
    alpha: int,
    beta: int,
    v: int,
    room: int,
)
    requires
        start.keeps(entered),
        start.tt.clusters == entered.tt.clusters,
        start.eval_cache == entered.eval_cache,
        start.plain() ==> entered.plain(),
        found.keeps(after),
        found.tt.clusters == after.tt.clusters,
        found.eval_cache == after.eval_cache,
        found.search_stopped == after.search_stopped,
        found.plain() ==> after.plain(),
        narrow_enough(n, searched, alpha, beta) ==> entered.plainly(
            found,
            t,
            entered.path_hashes@,
            bb.played(m),
            n.depth - 1,
            alpha,
            beta,
            v,
        ),
        n.depth >= 1,
        is_legal(bb, m),
        board_ok(bb, room),
        room >= 1,
    ensures
        start.plain_tried(after, t, bb, n, m, searched, alpha, beta, v),
{
    reveal(BitBoardEngine::plain_tried);
    if start.plain_inside(t, bb, n.depth as int) && !after.search_stopped {
        lemma_plain_child(start, t, bb, m, n.depth as int, room);
        lemma_plainly_same(start, entered, t);
        lemma_plainly_same(found, after, t);
        reveal(BitBoardEngine::plainly);
    }
}

/// A glance in the smallest window that leaves the whole window is enough.
pub(crate) proof fn lemma_child_glance<L: OutputLayer>(
    start: BitBoardEngine<L>,
    after: BitBoardEngine<L>,
    t: SearchTree,
    child: BitBoard,
    n: NodeFacts,
    searched: int,
    alpha: int,
    beta: int,
    v: int,
)
    requires
        alpha < beta,
        searched > 0,
        start.searches_plainly(t) ==> (n.maximizing ==> start.plainly(
            after,
            t,
            start.path_hashes@,
            child,
            n.depth - 1,
            alpha,
            alpha + 1,
            v,
        )) && (!n.maximizing ==> start.plainly(after, t, start.path_hashes@, child, n.depth - 1, beta - 1, beta, v)),
        start.searches_plainly(t) ==> v <= alpha || v >= beta,
    ensures
        narrow_enough(n, searched, alpha, beta) ==> start.plainly(
            after,
            t,
            start.path_hashes@,
            child,
            n.depth - 1,
            alpha,
            beta,
            v,
        ),
{
    reveal(BitBoardEngine::plainly);
    reveal(narrow_enough);
}

/// After a glance the second search tells.
pub(crate) proof fn lemma_child_again<L: OutputLayer>(
    start: BitBoardEngine<L>,
    glanced: BitBoardEngine<L>,
    after: BitBoardEngine<L>,
    t: SearchTree,
    child: BitBoard,
    n: NodeFacts,
    searched: int,
    alpha: int,
    beta: int,
    v: int,
    s: int,
)
    requires
        alpha < beta,
        searched > 0,
        start.keeps(glanced),
        glanced.keeps(after),
        start.searches_plainly(t) ==> (n.maximizing ==> start.plainly(
            glanced,
            t,
            start.path_hashes@,
            child,
            n.depth - 1,
            alpha,
            alpha + 1,
            v,
        )) && (!n.maximizing ==> start.plainly(glanced, t, start.path_hashes@, child, n.depth - 1, beta - 1, beta, v)),
        glanced.plainly(after, t, start.path_hashes@, child, n.depth - 1, alpha, beta, s),
    ensures
        narrow_enough(n, searched, alpha, beta) ==> start.plainly(
            after,
            t,
            start.path_hashes@,
            child,
            n.depth - 1,
            alpha,
            beta,
            s,
        ),
{
    reveal(BitBoardEngine::plainly);
    reveal(narrow_enough);
    lemma_rules_fixed(start, glanced);
}

} // verus!
