//! Plain alpha-beta: the value of a position searched to a depth over all legal
//! moves, and the searches that find exactly this value.
use vstd::prelude::*;
use crate::bitboard::BitBoard;
use crate::bitmove::BitMove;
use crate::board::Player;
use crate::engine::{BitBoardEngine, OutputLayer, WIN_SCORE};
use crate::engine_state::{mild_cache, MILD_EVAL};
use crate::heuristic::{heuristic_of, EvalWeights};
use crate::movegen::lists_legal;
use crate::node::{all_legal, board_ok, from_tt, is_legal, keyed, lemma_keyed_child, to_tt, win_score_of};
use crate::phase::{is_black_win, is_white_win, win_dist};
use crate::quiet::{bounds, known_by_hash, lemma_known_parts, no_worse, quiet_value, QuietRules};
use crate::search::{lemma_legal_listed, limited};
use crate::tablebase::Tablebase;
use crate::tt::{TTEntry, TTFlag, TranspositionTable};

verus! {

/// What a plain search is judged by.
pub struct PlainRules {
    pub weights: EvalWeights,
    pub qs_mode: i32,
    pub contempt: i32,
    pub no_progress_limit: u16,
    pub game_history: Seq<u64>,
    pub tablebase: Option<Tablebase>,
    pub root: Player,
}

impl PlainRules {
    pub open spec fn draw(self) -> int {
        match self.root {
            Player::White => -self.contempt,
            Player::Black => self.contempt as int,
        }
    }

    pub open spec fn table(self, b: BitBoard) -> Option<u8> {
        match self.tablebase {
            Some(tb) => tb.value_of(b),
            None => None,
        }
    }

    /// What needs no search at distance `ply` from the root: below the root
    /// draws by the rules and values of the tables, and finished games.
    pub open spec fn at_once(self, b: BitBoard, ply: int) -> Option<int> {
        if ply > 0 && (self.no_progress_limit > 0 && b.halfmove_clock >= self.no_progress_limit
            || self.game_history.contains(b.hash)) {
            Some(self.draw())
        } else if ply > 0 && self.table(b) is Some {
            let v = self.table(b)->0;
            let d = ply + win_dist(v);
            Some(
                if is_white_win(v) {
                    WIN_SCORE - d
                } else if is_black_win(v) {
                    -(WIN_SCORE - d)
                } else {
                    self.draw()
                },
            )
        } else {
            match b@.winner() {
                Some(w) => Some(win_score_of(w, ply)),
                None => None,
            }
        }
    }
}

/// `v` is the best for the side to move of the values `f` behind its moves.
pub open spec fn is_best_legal(b: BitBoard, f: spec_fn(BitBoard) -> int, v: int) -> bool {
    let white = b.current_player == Player::White;
    &&& forall|m: BitMove| #[trigger] is_legal(b, m) ==> no_worse(white, v, f(b.played(m)))
    &&& exists|m: BitMove| #[trigger] is_legal(b, m) && v == f(b.played(m))
}

pub open spec fn best_legal(b: BitBoard, f: spec_fn(BitBoard) -> int) -> int {
    choose|v: int| is_best_legal(b, f, v)
}

/// The value of a position at distance `ply` with `d` more moves to search,
/// where the positions behind its moves have the values `next`.
pub open spec fn plain_level(r: PlainRules, b: BitBoard, d: int, ply: int, next: spec_fn(BitBoard) -> int) -> int {
    match r.at_once(b, ply) {
        Some(v) => v,
        None => if d <= 0 {
            quiet_value(QuietRules { weights: r.weights, qs_mode: r.qs_mode, ply }, b, 0)
        } else if exists|m: BitMove| is_legal(b, m) {
            best_legal(b, next)
        } else {
            heuristic_of(r.weights, b)
        },
    }
}

/// The values of positions at distance `ply` with `d` more moves to search.
pub open spec fn plain_values(r: PlainRules, d: nat, ply: int) -> spec_fn(BitBoard) -> int
    decreases d,
{
    let next: spec_fn(BitBoard) -> int = if d == 0 {
        |b: BitBoard| 0int
    } else {
        plain_values(r, (d - 1) as nat, ply + 1)
    };
    |b: BitBoard| plain_level(r, b, d as int, ply, next)
}

/// The minimax value of a position at distance `ply` with `d` more moves to
/// search: over all legal moves, down to the values of quiescence.
#[verifier::opaque]
pub open spec fn plain_value(r: PlainRules, b: BitBoard, d: int, ply: int) -> int {
    plain_values(r, d as nat, ply)(b)
}

/// The moves within `reach` of a root, searched to `depth`.
pub struct SearchTree {
    pub root: BitBoard,
    pub depth: int,
    pub reach: int,
}

/// The positions `i` moves from a root.
pub open spec fn boards_at(root: BitBoard, i: nat) -> spec_fn(BitBoard) -> bool
    decreases i,
{
    let before: spec_fn(BitBoard) -> bool = if i == 0 {
        |b: BitBoard| false
    } else {
        boards_at(root, (i - 1) as nat)
    };
    |b: BitBoard|
        if i == 0 {
            b == root
        } else {
            exists|c: BitBoard, m: BitMove| before(c) && #[trigger] is_legal(c, m) && b == c.played(m)
        }
}

impl SearchTree {
    /// The position is `i` moves from the root.
    #[verifier::opaque]
    pub open spec fn has(self, b: BitBoard, i: int) -> bool {
        0 <= i <= self.reach && boards_at(self.root, i as nat)(b)
    }

    /// The value of a position of the tree.
    pub open spec fn value(self, r: PlainRules, b: BitBoard, i: int) -> int {
        plain_value(r, b, self.depth - i, i)
    }

    /// Positions of the tree with the same hash are equally far from the root,
    /// and worth the same if they are searched.
    #[verifier::opaque]
    pub open spec fn is_told(self, r: PlainRules) -> bool {
        forall|a: BitBoard, b: BitBoard, i: int, j: int| #[trigger]
            self.has(a, i) && #[trigger] self.has(b, j) && a.hash == b.hash ==> i == j && (i <= self.depth
                ==> self.value(r, a, i) == self.value(r, b, j))
    }

    /// The hashes are those of positions at growing distance.
    #[verifier::opaque]
    pub open spec fn holds_path(self, path: Seq<u64>) -> bool {
        forall|k: int| 0 <= k < path.len() ==> self.has_hash(#[trigger] path[k], k)
    }

    pub open spec fn has_hash(self, hash: u64, k: int) -> bool {
        exists|b: BitBoard| #[trigger] self.has(b, k) && b.hash == hash
    }
}

/// No score of a plain search is further from zero.
pub const PLAIN_LIMIT: i32 = 250_000;

/// What an entry says of a position of the tree is true: it is not from a deeper
/// search, and one from a search as deep bounds the value.
pub open spec fn entry_tells(t: SearchTree, r: PlainRules, x: TTEntry, b: BitBoard, i: int) -> bool {
    let v = from_tt(x.score as int, i);
    &&& x.depth <= t.depth - i
    &&& x.depth == t.depth - i ==> {
        &&& -PLAIN_LIMIT <= v <= PLAIN_LIMIT
        &&& x.flag != TTFlag::UpperBound ==> t.value(r, b, i) >= v
        &&& x.flag != TTFlag::LowerBound ==> t.value(r, b, i) <= v
    }
}

pub open spec fn slot_tells(t: SearchTree, r: PlainRules, e: Option<TTEntry>) -> bool {
    e matches Some(x) ==> forall|b: BitBoard, i: int| #[trigger]
        t.has(b, i) && b.hash == x.hash ==> entry_tells(t, r, x, b, i)
}

/// All that the table says of the tree's positions is true.
#[verifier::opaque]
pub open spec fn table_tells(t: SearchTree, r: PlainRules, table: TranspositionTable) -> bool {
    forall|i: int, k: int|
        0 <= i < table.clusters@.len() && 0 <= k < 3 ==> slot_tells(t, r, #[trigger] table.clusters@[i].entries@[k])
}

impl<L: OutputLayer> BitBoardEngine<L> {
    pub open spec fn plain_rules(&self) -> PlainRules {
        PlainRules {
            weights: self.weights,
            qs_mode: self.knobs.qs_mode,
            contempt: self.contempt,
            no_progress_limit: self.no_progress_limit,
            game_history: self.game_history@,
            tablebase: self.tablebase,
            root: self.root_player,
        }
    }

    /// Everything that leaves out moves or depth is switched off: margins that
    /// no mild evaluation reaches, and no reductions.
    pub open spec fn unpruned(&self) -> bool {
        &&& self.knobs.rfp_margin <= 0
        &&& self.knobs.lmp_base <= 0
        &&& self.knobs.razor_base >= 900_000
        &&& self.knobs.razor_slope >= 0
        &&& self.knobs.nmp_margin <= -900_000
        &&& self.knobs.fut_scale >= 900_000
        &&& self.knobs.lmr_hist_bad <= 0
        &&& self.knobs.iir_depth > 255
        &&& forall|d: int, k: int| 0 <= d < 32 && 0 <= k < 64 ==> #[trigger] self.lmr_table@[d]@[k] == 0
    }

    /// Evaluations and draws are far from winning scores.
    pub open spec fn calm(&self) -> bool {
        &&& self.nnue is None
        &&& self.weights.reach() <= MILD_EVAL
        &&& -MILD_EVAL <= self.contempt <= MILD_EVAL
        &&& mild_cache(self.eval_cache)
    }

    /// A search of the tree finds plain values.
    #[verifier::opaque]
    pub open spec fn searches_plainly(&self, t: SearchTree) -> bool {
        &&& self.unpruned()
        &&& self.calm()
        &&& self.plain()
        &&& t.depth <= t.reach <= 255
        &&& t.is_told(self.plain_rules())
        &&& table_tells(t, self.plain_rules(), self.tt)
    }

    /// The position stands in the tree at the end of `path`, with `depth` more
    /// moves to search, and has its own hash, which tells its evaluation and
    /// those near it.
    #[verifier::opaque]
    pub open spec fn stands_in(&self, t: SearchTree, path: Seq<u64>, b: BitBoard, depth: int) -> bool {
        &&& t.has(b, path.len() as int)
        &&& path.len() + depth == t.depth
        &&& t.holds_path(path)
        &&& keyed(b)
        &&& known_by_hash(self.weights, b, depth + 7)
    }

    /// A position of the tree that is the last on the path.
    #[verifier::opaque]
    pub open spec fn plain_inside(&self, t: SearchTree, b: BitBoard, depth: int) -> bool {
        &&& self.searches_plainly(t)
        &&& self.path_hashes@.len() > 0
        &&& self.path_hashes@.last() == b.hash
        &&& self.stands_in(t, self.path_hashes@.drop_last(), b, depth)
    }

    /// What a search of a position of the tree owes: the plain value, or a
    /// bound of it outside the window.
    #[verifier::opaque]
    pub open spec fn plainly(
        &self,
        after: Self,
        t: SearchTree,
        path: Seq<u64>,
        b: BitBoard,
        depth: int,
        alpha: int,
        beta: int,
        v: int,
    ) -> bool {
        self.searches_plainly(t) && self.stands_in(t, path, b, depth) && alpha <= PLAIN_LIMIT && beta >= -PLAIN_LIMIT
            && !after.search_stopped ==> {
            &&& after.searches_plainly(t)
            &&& -PLAIN_LIMIT <= v <= PLAIN_LIMIT
            &&& bounds(v, t.value(self.plain_rules(), b, path.len() as int), alpha, beta)
        }
    }
}

/// Whether a search is plain depends on the settings, the table's entries and
/// the cache only.
pub proof fn lemma_plainly_same<L: OutputLayer>(a: BitBoardEngine<L>, b: BitBoardEngine<L>, t: SearchTree)
    requires
        a.fixed() == b.fixed(),
        a.root_player == b.root_player,
        a.tt.clusters == b.tt.clusters,
        a.eval_cache.entries == b.eval_cache.entries,
        a.plain() ==> b.plain(),
    ensures
        a.plain_rules() == b.plain_rules(),
        a.searches_plainly(t) ==> b.searches_plainly(t),
        forall|path: Seq<u64>, c: BitBoard, d: int| #[trigger] a.stands_in(t, path, c, d) == b.stands_in(t, path, c, d),
        forall|path: Seq<u64>, c: BitBoard, d: int| a.stands_in(t, path, c, d) == #[trigger] b.stands_in(t, path, c, d),
{
    reveal(BitBoardEngine::searches_plainly);
    reveal(BitBoardEngine::stands_in);
    reveal(mild_cache);
    reveal(table_tells);
    let fa = a.fixed();
    let fb = b.fixed();
    assert(fa.nnue == fb.nnue && fa.weights == fb.weights && fa.contempt == fb.contempt && fa.knobs == fb.knobs
        && fa.tablebase == fb.tablebase && fa.game_history == fb.game_history && fa.no_progress_limit
        == fb.no_progress_limit && fa.lmr_table == fb.lmr_table);
}

/// What plain searching rests on.
pub proof fn lemma_plain_setup<L: OutputLayer>(e: BitBoardEngine<L>, t: SearchTree)
    requires
        e.searches_plainly(t),
    ensures
        e.unpruned(),
        e.calm(),
        e.plain(),
        t.depth <= t.reach <= 255,
        t.is_told(e.plain_rules()),
        table_tells(t, e.plain_rules(), e.tt),
{
    reveal(BitBoardEngine::searches_plainly);
}

pub proof fn lemma_plain_place<L: OutputLayer>(e: BitBoardEngine<L>, t: SearchTree, path: Seq<u64>, b: BitBoard, depth: int)
    requires
        e.stands_in(t, path, b, depth),
    ensures
        t.has(b, path.len() as int),
        path.len() + depth == t.depth,
        t.holds_path(path),
        keyed(b),
        known_by_hash(e.weights, b, depth + 7),
{
    reveal(BitBoardEngine::stands_in);
}

/// A search stays plain as long as what it caches is mild and true.
pub proof fn lemma_plainly_cache<L: OutputLayer>(a: BitBoardEngine<L>, b: BitBoardEngine<L>, t: SearchTree)
    requires
        a.fixed() == b.fixed(),
        a.root_player == b.root_player,
        a.tt.clusters == b.tt.clusters,
        a.searches_plainly(t),
        b.calm(),
        b.plain(),
    ensures
        b.searches_plainly(t),
        a.plain_rules() == b.plain_rules(),
{
    let c = BitBoardEngine { eval_cache: b.eval_cache, ..a };
    let fa = a.fixed();
    let fb = b.fixed();
    assert(fa.nnue == fb.nnue && fa.weights == fb.weights);
    assert(c.plain()) by {
        reveal(BitBoardEngine::honest);
    }
    assert(c.searches_plainly(t)) by {
        reveal(BitBoardEngine::searches_plainly);
        assert(c.plain_rules() == a.plain_rules());
    }
    lemma_plainly_same(c, b, t);
}

/// A search stays plain when a true entry is stored.
pub proof fn lemma_plainly_store<L: OutputLayer>(a: BitBoardEngine<L>, b: BitBoardEngine<L>, t: SearchTree)
    requires
        a.fixed() == b.fixed(),
        a.root_player == b.root_player,
        a.eval_cache == b.eval_cache,
        a.searches_plainly(t),
        table_tells(t, a.plain_rules(), b.tt),
    ensures
        b.searches_plainly(t),
{
    let c = BitBoardEngine { tt: b.tt, ..a };
    assert(c.plain()) by {
        reveal(BitBoardEngine::searches_plainly);
        reveal(BitBoardEngine::honest);
    }
    assert(c.searches_plainly(t)) by {
        reveal(BitBoardEngine::searches_plainly);
        assert(c.plain_rules() == a.plain_rules());
    }
    let fa = a.fixed();
    let fb = b.fixed();
    assert(fa.nnue == fb.nnue && fa.weights == fb.weights);
    assert(b.plain()) by {
        reveal(BitBoardEngine::honest);
    }
    lemma_plainly_same(c, b, t);
}

/// The position behind a move stands in the tree too.
pub proof fn lemma_plain_child<L: OutputLayer>(e: BitBoardEngine<L>, t: SearchTree, b: BitBoard, m: BitMove, depth: int, room: int)
    requires
        e.plain_inside(t, b, depth),
        depth >= 1,
        is_legal(b, m),
        board_ok(b, room),
        room >= 1,
    ensures
        e.stands_in(t, e.path_hashes@, b.played(m), depth - 1),
        e.searches_plainly(t),
{
    reveal(BitBoardEngine::plain_inside);
    let before = e.path_hashes@.drop_last();
    lemma_plain_place(e, t, before, b, depth);
    lemma_plain_setup(e, t);
    lemma_longer_path(t, before, b);
    assert(before.push(b.hash) =~= e.path_hashes@);
    lemma_tree_step(t, b, m, before.len() as int);
    lemma_keyed_child(b, m, room);
    lemma_known_parts(e.weights, b, depth + 7);
    reveal(BitBoardEngine::stands_in);
}

/// What the value of a position is made of.
pub proof fn lemma_plain_parts(r: PlainRules, b: BitBoard, d: int, ply: int)
    requires
        d >= 0,
    ensures
        r.at_once(b, ply) matches Some(v) ==> plain_value(r, b, d, ply) == v,
        r.at_once(b, ply) is None && d == 0 ==> plain_value(r, b, d, ply) == quiet_value(
            QuietRules { weights: r.weights, qs_mode: r.qs_mode, ply },
            b,
            0,
        ),
        r.at_once(b, ply) is None && d > 0 && !(exists|m: BitMove| is_legal(b, m)) ==> plain_value(r, b, d, ply)
            == heuristic_of(r.weights, b),
        r.at_once(b, ply) is None && d > 0 && (exists|m: BitMove| is_legal(b, m)) ==> {
            &&& forall|m: BitMove| #[trigger]
                is_legal(b, m) ==> no_worse(
                    b.current_player == Player::White,
                    plain_value(r, b, d, ply),
                    plain_value(r, b.played(m), d - 1, ply + 1),
                )
            &&& exists|m: BitMove| #[trigger]
                is_legal(b, m) && plain_value(r, b, d, ply) == plain_value(r, b.played(m), d - 1, ply + 1)
        },
{
    reveal(plain_value);
    if d > 0 && exists|m: BitMove| is_legal(b, m) {
        let next = plain_values(r, (d - 1) as nat, ply + 1);
        lemma_best_legal_exists(b, next);
    }
}

/// The best among the legal moves whose word is below `n`, if there is one.
proof fn lemma_best_legal_below(b: BitBoard, f: spec_fn(BitBoard) -> int, n: int) -> (v: Option<int>)
    requires
        0 <= n,
    ensures
        v is None ==> forall|m: BitMove| #[trigger] is_legal(b, m) ==> m.packed >= n,
        v matches Some(x) ==> (exists|m: BitMove| #[trigger] is_legal(b, m) && x == f(b.played(m))) && forall|m: BitMove|
         #[trigger]
            is_legal(b, m) && m.packed < n ==> no_worse(b.current_player == Player::White, x, f(b.played(m))),
    decreases n,
{
    reveal(BitBoard::played);
    let white = b.current_player == Player::White;
    if n == 0 {
        None
    } else {
        let u = lemma_best_legal_below(b, f, n - 1);
        if exists|m: BitMove| #[trigger]
            is_legal(b, m) && m.packed == n - 1 && (u matches Some(x) ==> !no_worse(white, x, f(b.played(m)))) {
            let m = choose|m: BitMove| #[trigger]
                is_legal(b, m) && m.packed == n - 1 && (u matches Some(x) ==> !no_worse(white, x, f(b.played(m))));
            assert forall|k: BitMove| #[trigger] is_legal(b, k) && k.packed < n implies no_worse(
                white,
                f(b.played(m)),
                f(b.played(k)),
            ) by {
                if k.packed == n - 1 {
                    assert(b.played(k) == b.played(m));
                }
            }
            Some(f(b.played(m)))
        } else {
            u
        }
    }
}

proof fn lemma_best_legal_exists(b: BitBoard, f: spec_fn(BitBoard) -> int)
    requires
        exists|m: BitMove| is_legal(b, m),
    ensures
        is_best_legal(b, f, best_legal(b, f)),
{
    let v = lemma_best_legal_below(b, f, 0x1_0000_0000);
    let m = choose|m: BitMove| is_legal(b, m);
    assert(m.packed < 0x1_0000_0000);
    assert(v is Some);
    assert(is_best_legal(b, f, v->0));
}

/// The root stands in its tree, and what is behind a move of an inner position.
pub proof fn lemma_tree_step(t: SearchTree, b: BitBoard, m: BitMove, i: int)
    requires
        t.has(b, i),
        i < t.reach,
        is_legal(b, m),
    ensures
        t.has(b.played(m), i + 1),
{
    reveal(SearchTree::has);
    let before = boards_at(t.root, i as nat);
    assert(before(b) && is_legal(b, m) && b.played(m) == b.played(m));
    assert(boards_at(t.root, (i + 1) as nat)(b.played(m)));
}

pub proof fn lemma_tree_root(t: SearchTree)
    requires
        0 <= t.reach,
    ensures
        t.has(t.root, 0),
{
    reveal(SearchTree::has);
}

/// In a tree whose positions are told apart no position repeats on its path.
pub proof fn lemma_no_repeat(t: SearchTree, r: PlainRules, path: Seq<u64>, b: BitBoard)
    requires
        t.is_told(r),
        t.holds_path(path),
        t.has(b, path.len() as int),
    ensures
        !path.contains(b.hash),
{
    reveal(SearchTree::is_told);
    reveal(SearchTree::holds_path);
    if path.contains(b.hash) {
        let k = choose|k: int| 0 <= k < path.len() && path[k] == b.hash;
        assert(t.has_hash(path[k], k));
        let a = choose|a: BitBoard| #[trigger] t.has(a, k) && a.hash == path[k];
        assert(t.has(a, k) && t.has(b, path.len() as int));
    }
}

pub proof fn lemma_longer_path(t: SearchTree, path: Seq<u64>, b: BitBoard)
    requires
        t.holds_path(path),
        t.has(b, path.len() as int),
    ensures
        t.holds_path(path.push(b.hash)),
{
    reveal(SearchTree::holds_path);
    let q = path.push(b.hash);
    assert forall|k: int| 0 <= k < q.len() implies t.has_hash(#[trigger] q[k], k) by {
        if k < path.len() {
            assert(t.has_hash(path[k], k));
        } else {
            assert(t.has(b, k) && b.hash == q[k]);
        }
    }
}

/// A node's true result may be stored.
pub proof fn lemma_store_tells(t: SearchTree, r: PlainRules, x: TTEntry, b: BitBoard, i: int, v: int, alpha: int, beta: int)
    requires
        t.is_told(r),
        t.has(b, i),
        b.hash == x.hash,
        x.depth == t.depth - i,
        x.score == limited(to_tt(v, i)),
        -PLAIN_LIMIT <= v <= PLAIN_LIMIT,
        0 <= i <= 255,
        bounds(v, t.value(r, b, i), alpha, beta),
        alpha < beta,
        x.flag == TTFlag::UpperBound || v > alpha,
        x.flag == TTFlag::LowerBound || v < beta,
    ensures
        slot_tells(t, r, Some(x)),
{
    reveal(SearchTree::is_told);
    assert(from_tt(x.score as int, i) == v);
    assert forall|c: BitBoard, j: int| #[trigger] t.has(c, j) && c.hash == x.hash implies entry_tells(t, r, x, c, j) by {
        assert(t.has(b, i));
    }
}

/// A table that is true of a search is true of every deeper one.
pub proof fn lemma_deeper_tells(a: SearchTree, b: SearchTree, r: PlainRules, table: TranspositionTable)
    requires
        table_tells(a, r, table),
        a.root == b.root,
        a.reach == b.reach,
        a.depth < b.depth,
    ensures
        table_tells(b, r, table),
{
    reveal(table_tells);
    reveal(SearchTree::has);
    assert forall|i: int, k: int| 0 <= i < table.clusters@.len() && 0 <= k < 3 implies slot_tells(
        b,
        r,
        #[trigger] table.clusters@[i].entries@[k],
    ) by {
        let e = table.clusters@[i].entries@[k];
        assert(slot_tells(a, r, e));
        if let Some(x) = e {
            assert forall|c: BitBoard, j: int| #[trigger] b.has(c, j) && c.hash == x.hash implies entry_tells(b, r, x, c, j) by {
                assert(a.has(c, j));
            }
        }
    }
}

/// An empty table is true of every search.
pub proof fn lemma_empty_tells(t: SearchTree, r: PlainRules, table: TranspositionTable)
    requires
        forall|i: int| 0 <= i < table.clusters@.len() ==> (#[trigger] table.clusters@[i]).is_empty(),
    ensures
        table_tells(t, r, table),
{
    reveal(table_tells);
    assert forall|i: int, k: int| 0 <= i < table.clusters@.len() && 0 <= k < 3 implies slot_tells(
        t,
        r,
        #[trigger] table.clusters@[i].entries@[k],
    ) by {
        assert(table.clusters@[i].is_empty());
    }
}

/// A table whose slots say the truth, but for one new true entry.
pub proof fn lemma_table_store(
    t: SearchTree,
    r: PlainRules,
    a: TranspositionTable,
    b: TranspositionTable,
    i: int,
    s: int,
    x: TTEntry,
)
    requires
        table_tells(t, r, a),
        slot_tells(t, r, Some(x)),
        0 <= i < a.clusters@.len(),
        0 <= s < 3,
        b.clusters@.len() == a.clusters@.len(),
        b.clusters@[i].entries@ == a.clusters@[i].entries@.update(s, Some(x)),
        forall|j: int| 0 <= j < a.clusters@.len() && j != i ==> #[trigger] b.clusters@[j] == a.clusters@[j],
    ensures
        table_tells(t, r, b),
{
    reveal(table_tells);
    assert forall|j: int, k: int| 0 <= j < b.clusters@.len() && 0 <= k < 3 implies slot_tells(
        t,
        r,
        #[trigger] b.clusters@[j].entries@[k],
    ) by {
        assert(slot_tells(t, r, a.clusters@[j].entries@[k]));
    }
}

/// What the table finds for a position of the tree is true.
pub proof fn lemma_found_tells(t: SearchTree, r: PlainRules, a: TranspositionTable, b: BitBoard, i: int)
    requires
        table_tells(t, r, a),
        a.wf(),
        t.has(b, i),
    ensures
        a.find(b.hash) matches Some(x) ==> entry_tells(t, r, x, b, i),
{
    reveal(table_tells);
    let c = a.index_of(b.hash);
    assert(0 <= c < a.clusters@.len());
    assert(slot_tells(t, r, a.clusters@[c].entries@[0]));
    assert(slot_tells(t, r, a.clusters@[c].entries@[1]));
    assert(slot_tells(t, r, a.clusters@[c].entries@[2]));
    assert(t.has(b, i));
}

/// The value behind a move.
#[verifier::opaque]
pub open spec fn behind(b: BitBoard, m: BitMove, f: spec_fn(BitBoard) -> int) -> int {
    f(b.played(m))
}

/// What the best score of the first `i` moves says of their values `f`: the
/// best move is worth it, and none of them is worth more.
#[verifier::opaque]
pub open spec fn weighed(
    b: BitBoard,
    moves: Seq<BitMove>,
    i: int,
    f: spec_fn(BitBoard) -> int,
    best: int,
    m: Option<BitMove>,
    lo: int,
    hi: int,
) -> bool {
    match b.current_player {
        Player::White => {
            &&& best > lo ==> m is Some && behind(b, m->0, f) >= best
            &&& best < hi ==> forall|j: int| 0 <= j < i ==> behind(b, #[trigger] moves[j], f) <= best
        },
        Player::Black => {
            &&& best < hi ==> m is Some && behind(b, m->0, f) <= best
            &&& best > lo ==> forall|j: int| 0 <= j < i ==> behind(b, #[trigger] moves[j], f) >= best
        },
    }
}

pub proof fn lemma_weighed_start(
    b: BitBoard,
    moves: Seq<BitMove>,
    f: spec_fn(BitBoard) -> int,
    best: int,
    lo: int,
    hi: int,
)
    requires
        b.current_player == Player::White ==> best <= lo,
        b.current_player == Player::Black ==> best >= hi,
    ensures
        weighed(b, moves, 0, f, best, None, lo, hi),
{
    reveal(weighed);
}

/// One more move, searched in the window that the best score has narrowed.
pub proof fn lemma_weighed_step(
    b: BitBoard,
    moves: Seq<BitMove>,
    i: int,
    f: spec_fn(BitBoard) -> int,
    best: int,
    m: Option<BitMove>,
    score: int,
    alpha: int,
    beta: int,
    lo: int,
    hi: int,
)
    requires
        weighed(b, moves, i, f, best, m, lo, hi),
        alpha < beta,
        bounds(score, behind(b, moves[i], f), alpha, beta),
        b.current_player == Player::White ==> beta == hi && (alpha == lo || alpha == best) && alpha >= lo,
        b.current_player == Player::Black ==> alpha == lo && (beta == hi || beta == best) && beta <= hi,
    ensures
        b.current_player == Player::White ==> if score > best {
            weighed(b, moves, i + 1, f, score, Some(moves[i]), lo, hi)
        } else {
            weighed(b, moves, i + 1, f, best, m, lo, hi)
        },
        b.current_player == Player::Black ==> if score < best {
            weighed(b, moves, i + 1, f, score, Some(moves[i]), lo, hi)
        } else {
            weighed(b, moves, i + 1, f, best, m, lo, hi)
        },
{
    reveal(weighed);
}

/// All moves have been searched, or the side to move has left the window.
pub open spec fn all_weighed(
    b: BitBoard,
    moves: Seq<BitMove>,
    f: spec_fn(BitBoard) -> int,
    best: int,
    m: BitMove,
    lo: int,
    hi: int,
) -> bool {
    weighed(b, moves, moves.len() as int, f, best, Some(m), lo, hi) || {
        &&& b.current_player == Player::White ==> best >= hi
        &&& b.current_player == Player::Black ==> best <= lo
        &&& exists|i: int| 0 <= i && #[trigger] weighed(b, moves, i, f, best, Some(m), lo, hi)
    }
}

/// With all legal moves searched, the best score bounds the plain value; inside
/// the window it is the value, and the best move reaches it.
pub proof fn lemma_weighed_bounds(
    r: PlainRules,
    b: BitBoard,
    listed: Seq<BitMove>,
    moves: Seq<BitMove>,
    d: int,
    ply: int,
    best: int,
    m: BitMove,
    lo: int,
    hi: int,
)
    requires
        d > 0,
        lo < hi,
        r.at_once(b, ply) is None,
        lists_legal(listed, b@),
        all_legal(b, listed),
        listed.to_multiset() == moves.to_multiset(),
        is_legal(b, m),
        all_weighed(b, moves, plain_values(r, (d - 1) as nat, ply + 1), best, m, lo, hi),
    ensures
        bounds(best, plain_value(r, b, d, ply), lo, hi),
        lo < best < hi ==> plain_value(r, b.played(m), d - 1, ply + 1) == best,
{
    let f = plain_values(r, (d - 1) as nat, ply + 1);
    lemma_plain_parts(r, b, d, ply);
    let v = plain_value(r, b, d, ply);
    let k = choose|k: BitMove| #[trigger] is_legal(b, k) && v == plain_value(r, b.played(k), d - 1, ply + 1);
    lemma_behind(r, b, k, d, ply);
    lemma_behind(r, b, m, d, ply);
    lemma_listed_behind(b, listed, moves, k, f);
    let j = choose|j: int| 0 <= j < moves.len() && behind(b, #[trigger] moves[j], f) == behind(b, k, f);
    assert(is_legal(b, m));
    reveal(weighed);
    assert(behind(b, moves[j], f) == v);
}

/// The plain value behind a move.
pub proof fn lemma_behind(r: PlainRules, b: BitBoard, m: BitMove, d: int, ply: int)
    requires
        d > 0,
    ensures
        behind(b, m, plain_values(r, (d - 1) as nat, ply + 1)) == plain_value(r, b.played(m), d - 1, ply + 1),
{
    reveal(behind);
    reveal(plain_value);
}

/// A legal move's value is that of a listed move.
proof fn lemma_listed_behind(
    b: BitBoard,
    listed: Seq<BitMove>,
    moves: Seq<BitMove>,
    k: BitMove,
    f: spec_fn(BitBoard) -> int,
)
    requires
        lists_legal(listed, b@),
        all_legal(b, listed),
        listed.to_multiset() == moves.to_multiset(),
        is_legal(b, k),
    ensures
        exists|j: int| 0 <= j < moves.len() && behind(b, #[trigger] moves[j], f) == behind(b, k, f),
{
    lemma_legal_listed(b, listed, k);
    let i = choose|i: int| 0 <= i < listed.len() && b.played(#[trigger] listed[i]) == b.played(k);
    assert(behind(b, listed[i], f) == behind(b, k, f)) by {
        reveal(behind);
    }
    listed.to_multiset_ensures();
    moves.to_multiset_ensures();
    assert(listed.contains(listed[i]));
    assert(listed.to_multiset().count(listed[i]) > 0);
    assert(moves.contains(listed[i]));
    let j = choose|j: int| 0 <= j < moves.len() && moves[j] == listed[i];
    assert(behind(b, moves[j], f) == behind(b, k, f));
}

/// A window narrowed by true bounds says as much as the whole.
pub proof fn lemma_bounds_wider(v: int, x: int, alpha: int, beta: int, lo: int, hi: int)
    requires
        bounds(v, x, alpha, beta),
        lo <= alpha,
        beta <= hi,
        alpha < beta,
        alpha != lo ==> x >= alpha,
        beta != hi ==> x <= beta,
    ensures
        bounds(v, x, lo, hi),
{
}

} // verus!
