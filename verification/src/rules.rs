//! The rules of the game over a mathematical state: what is legal, and what
//! each action does. Both board representations are held to these.
use vstd::prelude::*;
use crate::board::Cell;
use crate::board::Player;
use crate::squares::{adjacent, col_of, dir_col, dir_row, on_board, ray, row_of};
use crate::zobrist::{off_board_key, piece_key, side_key};

verus! {

/// A position: the thirty-six cells and the counters beside the board.
pub struct GameState {
    pub cells: Seq<Cell>,
    pub player: Player,
    /// The side to move has placed its pail this turn and owes a barrel move.
    pub awaiting_barrel: bool,
    pub white_pail_placed: bool,
    pub black_pail_placed: bool,
    pub white_off: int,
    pub black_off: int,
    pub white_scored: int,
    pub black_scored: int,
    /// Completed turns.
    pub move_count: int,
    /// Barrel moves since the last placement, pail or score.
    pub clock: int,
}

/// What a side can do. A turn is one barrel action, optionally preceded by the
/// side's pail placement, which leaves the same side to move.
pub enum Action {
    Pail { at: int },
    Place { to: int },
    Walk { from: int, path: Seq<int> },
}

pub open spec fn barrel_of(p: Player) -> Cell {
    match p {
        Player::White => Cell::WhiteBarrel,
        Player::Black => Cell::BlackBarrel,
    }
}

pub open spec fn pail_of(p: Player) -> Cell {
    match p {
        Player::White => Cell::WhitePail,
        Player::Black => Cell::BlackPail,
    }
}

/// The row on which a side places its barrels.
pub open spec fn start_row(p: Player) -> int {
    match p {
        Player::White => 5,
        Player::Black => 0,
    }
}

/// The row on which a side's barrels score.
pub open spec fn goal_row_of(p: Player) -> int {
    match p {
        Player::White => 0,
        Player::Black => 5,
    }
}

/// A side jumps over barrels of either side and over its own pail.
pub open spec fn jumpable(c: Cell, p: Player) -> bool {
    c == Cell::WhiteBarrel || c == Cell::BlackBarrel || c == pail_of(p)
}

/// A jump in direction `d` from square `a`.
pub open spec fn hop(cells: Seq<Cell>, p: Player, a: int, d: int) -> bool {
    &&& ray(a, d, 2) >= 0
    &&& jumpable(cells[ray(a, d, 1)], p)
    &&& cells[ray(a, d, 2)] == Cell::Empty
}

/// A single jump leads from `a` to `b`.
pub open spec fn jump_ok(cells: Seq<Cell>, p: Player, a: int, b: int) -> bool {
    exists|d: int| 0 <= d < 8 && #[trigger] ray(a, d, 2) == b && hop(cells, p, a, d)
}

/// Where a path that starts on `from` stands before its `i`th jump.
pub open spec fn stop(from: int, path: Seq<int>, i: int) -> int {
    if i == 0 {
        from
    } else {
        path[i - 1]
    }
}

/// A chain of jumps that never comes back to a square it has stood on.
/// The pieces stay where they were while the barrel jumps.
#[verifier::opaque]
pub open spec fn jump_chain(cells: Seq<Cell>, p: Player, from: int, path: Seq<int>) -> bool {
    &&& forall|i: int| 0 <= i < path.len() ==> jump_ok(cells, p, stop(from, path, i), #[trigger] path[i])
    &&& path.no_duplicates()
    &&& !path.contains(from)
}

/// `q` continues the path `p` by at least one square.
pub open spec fn continues(q: Seq<int>, p: Seq<int>) -> bool {
    p.len() < q.len() && q.subrange(0, p.len() as int) == p
}

/// The start of the game: an empty board, all pieces in hand, white to move.
pub open spec fn initial_state() -> GameState {
    GameState {
        cells: Seq::new(36, |s: int| Cell::Empty),
        player: Player::White,
        awaiting_barrel: false,
        white_pail_placed: false,
        black_pail_placed: false,
        white_off: 4,
        black_off: 4,
        white_scored: 0,
        black_scored: 0,
        move_count: 0,
        clock: 0,
    }
}

impl GameState {
    pub open spec fn off(self, p: Player) -> int {
        match p {
            Player::White => self.white_off,
            Player::Black => self.black_off,
        }
    }

    pub open spec fn scored(self, p: Player) -> int {
        match p {
            Player::White => self.white_scored,
            Player::Black => self.black_scored,
        }
    }

    pub open spec fn pail_placed(self, p: Player) -> bool {
        match p {
            Player::White => self.white_pail_placed,
            Player::Black => self.black_pail_placed,
        }
    }

    /// A barrel step to a neighbouring empty square.
    pub open spec fn step_ok(self, from: int, to: int) -> bool {
        on_board(to) && adjacent(from, to) && self.cells[to] == Cell::Empty
    }

    pub open spec fn walk_ok(self, from: int, path: Seq<int>) -> bool {
        ||| path.len() == 1 && self.step_ok(from, path[0])
        ||| path.len() >= 1 && jump_chain(self.cells, self.player, from, path)
    }

    /// The legal actions of the side to move.
    pub open spec fn legal(self, a: Action) -> bool {
        match a {
            Action::Pail { at } => !self.awaiting_barrel && !self.pail_placed(self.player) && on_board(at)
                && self.cells[at] == Cell::Empty,
            Action::Place { to } => self.off(self.player) > 0 && on_board(to) && row_of(to) == start_row(
                self.player,
            ) && self.cells[to] == Cell::Empty,
            Action::Walk { from, path } => on_board(from) && self.cells[from] == barrel_of(self.player)
                && self.walk_ok(from, path),
        }
    }

    pub open spec fn with_off(self, p: Player, n: int) -> GameState {
        match p {
            Player::White => GameState { white_off: n, ..self },
            Player::Black => GameState { black_off: n, ..self },
        }
    }

    pub open spec fn with_scored(self, p: Player, n: int) -> GameState {
        match p {
            Player::White => GameState { white_scored: n, ..self },
            Player::Black => GameState { black_scored: n, ..self },
        }
    }

    pub open spec fn with_cell(self, s: int, c: Cell) -> GameState {
        GameState { cells: self.cells.update(s, c), ..self }
    }

    /// A barrel of the side to move arrives on `to`: it scores on the goal row
    /// and stands on `to` otherwise.
    pub open spec fn arrive(self, to: int) -> GameState {
        let p = self.player;
        if row_of(to) == goal_row_of(p) {
            self.with_scored(p, self.scored(p) + 1)
        } else {
            self.with_cell(to, barrel_of(p))
        }
    }

    /// The turn passes to the other side.
    pub open spec fn end_turn(self, clock: int) -> GameState {
        GameState {
            player: self.player.opponent(),
            awaiting_barrel: false,
            move_count: self.move_count + 1,
            clock,
            ..self
        }
    }

    /// The position after an action.
    pub open spec fn apply(self, a: Action) -> GameState {
        let p = self.player;
        match a {
            Action::Pail { at } => {
                let s = self.with_cell(at, pail_of(p));
                match p {
                    Player::White => GameState { white_pail_placed: true, awaiting_barrel: true, clock: 0, ..s },
                    Player::Black => GameState { black_pail_placed: true, awaiting_barrel: true, clock: 0, ..s },
                }
            },
            Action::Place { to } => self.with_off(p, self.off(p) - 1).arrive(to).end_turn(0),
            Action::Walk { from, path } => {
                let to = path.last();
                let clock = if row_of(to) == goal_row_of(p) {
                    0
                } else {
                    self.clock + 1
                };
                self.with_cell(from, Cell::Empty).arrive(to).end_turn(clock)
            },
        }
    }

    /// White is asked first; a side with all four barrels home has won.
    pub open spec fn winner(self) -> Option<Player> {
        if self.white_scored == 4 {
            Some(Player::White)
        } else if self.black_scored == 4 {
            Some(Player::Black)
        } else {
            None
        }
    }
}

/// The keys of the first `n` squares combined.
pub open spec fn cells_hash(cells: Seq<Cell>, n: nat) -> u64
    decreases n,
{
    if n == 0 {
        0
    } else {
        cells_hash(cells, (n - 1) as nat) ^ piece_key(n - 1, cells[n - 1])
    }
}

/// The hash of a position from scratch: cells, side to move, barrels in hand.
pub open spec fn hash_of(s: GameState) -> u64 {
    let side = if s.player == Player::Black {
        side_key()
    } else {
        0
    };
    cells_hash(s.cells, 36) ^ side ^ off_board_key(0, s.white_off) ^ off_board_key(1, s.black_off)
}

/// The hash after the content of square `s` changes from `a` to `b`.
pub open spec fn hash_cell(h: u64, s: int, a: Cell, b: Cell) -> u64 {
    h ^ piece_key(s, a) ^ piece_key(s, b)
}

/// The hash after `p` places its pail on `at`.
pub open spec fn hash_pail(h: u64, p: Player, at: int) -> u64 {
    hash_cell(h, at, Cell::Empty, pail_of(p))
}

/// The hash after a barrel of `p` comes to `to`; a scoring barrel leaves none.
pub open spec fn hash_arrive(h: u64, p: Player, to: int) -> u64 {
    if row_of(to) == goal_row_of(p) {
        h
    } else {
        hash_cell(h, to, Cell::Empty, barrel_of(p))
    }
}

pub open spec fn player_index(p: Player) -> int {
    match p {
        Player::White => 0,
        Player::Black => 1,
    }
}

/// The hash after one barrel leaves a hand of `n`.
pub open spec fn hash_hand(h: u64, p: Player, n: int) -> u64 {
    h ^ off_board_key(player_index(p), n) ^ off_board_key(player_index(p), n - 1)
}

/// The hash kept incrementally: only what the action touches is rekeyed.
pub open spec fn hash_after(h: u64, s: GameState, a: Action) -> u64 {
    let p = s.player;
    match a {
        Action::Pail { at } => hash_pail(h, p, at),
        Action::Place { to } => hash_arrive(hash_hand(h, p, s.off(p)), p, to) ^ side_key(),
        Action::Walk { from, path } => hash_arrive(hash_cell(h, from, barrel_of(p), Cell::Empty), p, path.last())
            ^ side_key(),
    }
}

/// The number of barrels of `p` among the first `n` cells.
pub open spec fn barrels_on(cells: Seq<Cell>, p: Player, n: nat) -> nat
    decreases n,
{
    if n == 0 {
        0
    } else {
        barrels_on(cells, p, (n - 1) as nat) + if cells[n - 1] == barrel_of(p) {
            1nat
        } else {
            0nat
        }
    }
}

/// All barrels of a side: on the board, in hand and home.
pub open spec fn barrel_total(s: GameState, p: Player) -> int {
    barrels_on(s.cells, p, 36) + s.off(p) + s.scored(p)
}

proof fn lemma_barrels_update(cells: Seq<Cell>, p: Player, s: int, c: Cell, n: nat)
    requires
        0 <= s < cells.len(),
        n <= cells.len(),
    ensures
        barrels_on(cells.update(s, c), p, n) == barrels_on(cells, p, n) + if s < n {
            (if c == barrel_of(p) {
                1int
            } else {
                0
            }) - (if cells[s] == barrel_of(p) {
                1int
            } else {
                0
            })
        } else {
            0
        },
    decreases n,
{
    if n > 0 {
        lemma_barrels_update(cells, p, s, c, (n - 1) as nat);
    }
}

/// Distinct directions lead to distinct squares.
pub proof fn lemma_ray_injective(a: int, d: int, e: int)
    requires
        on_board(a),
        0 <= d < 8,
        0 <= e < 8,
        ray(a, d, 2) >= 0,
        ray(a, d, 2) == ray(a, e, 2),
    ensures
        d == e,
{
}

/// A jump stays on the board, keeps the parity of row and column, and the
/// square jumped over is on the board.
pub proof fn lemma_ray(a: int, d: int)
    requires
        on_board(a),
        0 <= d < 8,
        ray(a, d, 2) >= 0,
    ensures
        on_board(ray(a, d, 2)),
        on_board(ray(a, d, 1)),
        ray(a, d, 2) != a,
        row_of(ray(a, d, 2)) % 2 == row_of(a) % 2,
        col_of(ray(a, d, 2)) % 2 == col_of(a) % 2,
{
    let r = row_of(a) + 2 * dir_row(d);
    let c = col_of(a) + 2 * dir_col(d);
    assert(row_of(6 * r + c) == r && col_of(6 * r + c) == c);
}

/// Every stop of a chain is an empty square of the board in the same parity
/// class as its start.
pub proof fn lemma_chain_squares(cells: Seq<Cell>, p: Player, from: int, path: Seq<int>, i: int)
    requires
        on_board(from),
        jump_chain(cells, p, from, path),
        0 <= i < path.len(),
    ensures
        on_board(path[i]),
        cells[path[i]] == Cell::Empty,
        row_of(path[i]) % 2 == row_of(from) % 2,
        col_of(path[i]) % 2 == col_of(from) % 2,
    decreases i,
{
    reveal(jump_chain);
    if i > 0 {
        lemma_chain_squares(cells, p, from, path, i - 1);
    }
    let a = stop(from, path, i);
    assert(jump_ok(cells, p, a, path[i]));
    let d = choose|d: int| 0 <= d < 8 && #[trigger] ray(a, d, 2) == path[i] && hop(cells, p, a, d);
    lemma_ray(a, d);
}

/// Number of a square within its parity class of nine.
spec fn class_index(s: int) -> int {
    (row_of(s) / 2) * 3 + col_of(s) / 2
}

/// Within a parity class the number determines the square.
proof fn lemma_class_index(a: int, b: int)
    requires
        on_board(a),
        on_board(b),
        row_of(a) % 2 == row_of(b) % 2,
        col_of(a) % 2 == col_of(b) % 2,
        class_index(a) == class_index(b),
    ensures
        a == b,
        0 <= class_index(a) < 9,
{
}

/// A chain has at most eight jumps: nine squares share a parity class, and the
/// start is one of them.
pub proof fn lemma_chain_len(cells: Seq<Cell>, p: Player, from: int, path: Seq<int>)
    requires
        on_board(from),
        jump_chain(cells, p, from, path),
    ensures
        path.len() <= 8,
{
    reveal(jump_chain);
    let all = path.push(from);
    let idx = Seq::new(all.len(), |i: int| class_index(all[i]));
    assert forall|i: int| 0 <= i < all.len() implies on_board(#[trigger] all[i]) && row_of(all[i]) % 2 == row_of(from)
        % 2 && col_of(all[i]) % 2 == col_of(from) % 2 by {
        if i < path.len() {
            lemma_chain_squares(cells, p, from, path, i);
        }
    }
    assert(all.no_duplicates()) by {
        assert forall|i: int, j: int| 0 <= i < all.len() && 0 <= j < all.len() && i != j implies all[i] != all[j] by {
            if i < path.len() && j < path.len() {
                assert(path[i] != path[j]);
            } else if i < path.len() {
                assert(path.contains(path[i]));
            } else {
                assert(path.contains(path[j]));
            }
        }
    }
    assert(idx.no_duplicates()) by {
        assert forall|i: int, j: int| 0 <= i < idx.len() && 0 <= j < idx.len() && i != j implies idx[i] != idx[j] by {
            if idx[i] == idx[j] {
                lemma_class_index(all[i], all[j]);
            }
        }
    }
    idx.unique_seq_to_set();
    let nine = vstd::set_lib::set_int_range(0, 9);
    vstd::set_lib::lemma_int_range(0, 9);
    assert forall|x: int| idx.to_set().contains(x) implies nine.contains(x) by {
        let i = choose|i: int| 0 <= i < idx.len() && idx[i] == x;
        lemma_class_index(all[i], all[i]);
    }
    vstd::set_lib::lemma_len_subset(idx.to_set(), nine);
}

/// The empty path is a chain.
pub proof fn lemma_chain_empty(cells: Seq<Cell>, p: Player, from: int)
    ensures
        jump_chain(cells, p, from, Seq::empty()),
{
    reveal(jump_chain);
}

/// Each jump of a chain is possible.
pub proof fn lemma_chain_jump(cells: Seq<Cell>, p: Player, from: int, path: Seq<int>, i: int)
    requires
        jump_chain(cells, p, from, path),
        0 <= i < path.len(),
    ensures
        jump_ok(cells, p, stop(from, path, i), path[i]),
{
    reveal(jump_chain);
}

/// A chain grows by exactly the jumps to squares it has not stood on.
pub proof fn lemma_chain_push(cells: Seq<Cell>, p: Player, from: int, path: Seq<int>, x: int)
    ensures
        jump_chain(cells, p, from, path.push(x)) <==> jump_chain(cells, p, from, path) && jump_ok(
            cells,
            p,
            stop(from, path, path.len() as int),
            x,
        ) && !path.contains(x) && x != from,
{
    reveal(jump_chain);
    let q = path.push(x);
    assert forall|i: int| 0 <= i <= path.len() implies stop(from, q, i) == stop(from, path, i) by {}
    if jump_chain(cells, p, from, q) {
        assert forall|i: int| 0 <= i < path.len() implies jump_ok(cells, p, stop(from, path, i), #[trigger] path[i]) by {
            assert(q[i] == path[i]);
        }
        assert(jump_ok(cells, p, stop(from, q, path.len() as int), q[path.len() as int]));
        assert(path.no_duplicates()) by {
            assert forall|i: int, j: int| 0 <= i < path.len() && 0 <= j < path.len() && i != j implies path[i] != path[j] by {
                assert(q[i] != q[j]);
            }
        }
        if path.contains(from) {
            let i = choose|i: int| 0 <= i < path.len() && path[i] == from;
            assert(q[i] == from);
        }
        if path.contains(x) {
            let i = choose|i: int| 0 <= i < path.len() && path[i] == x;
            assert(q[i] == q[path.len() as int]);
        }
        assert(q[path.len() as int] == x);
    }
    if jump_chain(cells, p, from, path) && jump_ok(cells, p, stop(from, path, path.len() as int), x) && !path.contains(x)
        && x != from {
        assert forall|i: int| 0 <= i < q.len() implies jump_ok(cells, p, stop(from, q, i), #[trigger] q[i]) by {
            if i < path.len() {
                assert(path[i] == q[i]);
            }
        }
        assert forall|i: int, j: int| 0 <= i < q.len() && 0 <= j < q.len() && i != j implies q[i] != q[j] by {
            if i < path.len() && j < path.len() {
            } else if i < path.len() {
                assert(path.contains(path[i]));
            } else if j < path.len() {
                assert(path.contains(path[j]));
            }
        }
        if q.contains(from) {
            let i = choose|i: int| 0 <= i < q.len() && q[i] == from;
            assert(path.contains(path[i]));
        }
    }
}

/// A prefix of a chain is a chain.
pub proof fn lemma_chain_prefix(cells: Seq<Cell>, p: Player, from: int, path: Seq<int>, n: int)
    requires
        jump_chain(cells, p, from, path),
        0 <= n <= path.len(),
    ensures
        jump_chain(cells, p, from, path.subrange(0, n)),
    decreases path.len() - n,
{
    if n < path.len() {
        lemma_chain_prefix(cells, p, from, path, n + 1);
        let q = path.subrange(0, n);
        assert(path.subrange(0, n + 1) =~= q.push(path[n]));
        lemma_chain_push(cells, p, from, q, path[n]);
    } else {
        assert(path.subrange(0, n) =~= path);
    }
}

/// No action creates or destroys a barrel of either side.
pub proof fn law_barrels_conserved(s: GameState, a: Action, p: Player)
    requires
        s.cells.len() == 36,
        s.legal(a),
    ensures
        barrel_total(s.apply(a), p) == barrel_total(s, p),
{
    match a {
        Action::Pail { at } => {
            lemma_barrels_update(s.cells, p, at, pail_of(s.player), 36);
        },
        Action::Place { to } => {
            lemma_barrels_update(s.cells, p, to, barrel_of(s.player), 36);
        },
        Action::Walk { from, path } => {
            let to = path.last();
            if path.len() >= 1 && jump_chain(s.cells, s.player, from, path) {
                lemma_chain_squares(s.cells, s.player, from, path, path.len() - 1);
            }
            lemma_barrels_update(s.cells, p, from, Cell::Empty, 36);
            lemma_barrels_update(s.cells.update(from, Cell::Empty), p, to, barrel_of(s.player), 36);
        },
    }
}

/// The pail sub-move keeps the side to move and makes it owe a barrel move;
/// every barrel action passes the turn.
pub proof fn law_turn_order(s: GameState, a: Action)
    requires
        s.legal(a),
    ensures
        a is Pail ==> s.apply(a).player == s.player && s.apply(a).awaiting_barrel,
        !(a is Pail) ==> s.apply(a).player == s.player.opponent() && !s.apply(a).awaiting_barrel,
        a is Pail ==> forall|b: int| !#[trigger] s.apply(a).legal(Action::Pail { at: b }),
{
}

/// A pail stays where it was placed.
pub proof fn law_pails_stay(s: GameState, a: Action, at: int)
    requires
        s.cells.len() == 36,
        s.legal(a),
        on_board(at),
        s.cells[at] == Cell::WhitePail || s.cells[at] == Cell::BlackPail,
    ensures
        s.apply(a).cells[at] == s.cells[at],
{
    if let Action::Walk { from, path } = a {
        if path.len() >= 1 && jump_chain(s.cells, s.player, from, path) {
            lemma_chain_squares(s.cells, s.player, from, path, path.len() - 1);
        }
    }
}

/// Scores never fall and rise by at most one, only for the side that moved.
pub proof fn law_scores_monotone(s: GameState, a: Action)
    requires
        s.legal(a),
    ensures
        s.apply(a).scored(s.player.opponent()) == s.scored(s.player.opponent()),
        s.scored(s.player) <= s.apply(a).scored(s.player) <= s.scored(s.player) + 1,
{
}

} // verus!
