//! From the grid to the masks and back.
use vstd::prelude::*;
use crate::bitboard::BitBoard;
use crate::bitmove::BitMove;
use crate::bits::{drop_lowest, group_has, lemma_empty, lemma_mask_ext, lowest, on};
use crate::board::{initial_hash, path_squares, Board, Cell, Move, Player, Position};
use crate::board_moves::actions_of;
use crate::listing::{found, gains};
use crate::movegen::{has_action, lists_legal};
use crate::rules::{barrels_on, hash_of, initial_state, Action, GameState};
use crate::squares::{bit, lemma_masks, on_board, ALL_SQUARES, BARRELS_PER_PLAYER};

verus! {

/// The mask holds exactly the squares below `n` with content `c`.
pub open spec fn collects(m: u64, cells: Seq<Cell>, c: Cell, n: int) -> bool {
    forall|s: int| #[trigger] on(m, s) == (0 <= s < n && cells[s] == c)
}

proof fn lemma_collects_next(m: u64, cells: Seq<Cell>, c: Cell, n: int)
    requires
        collects(m, cells, c, n),
        0 <= n < 36,
    ensures
        cells[n] == c ==> collects(m | (1u64 << (n as u64)), cells, c, n + 1),
        cells[n] != c ==> collects(m, cells, c, n + 1),
{
    broadcast use group_has;

}

/// Masks collected from a grid are sound and show the grid's cells.
pub proof fn lemma_collected(b: BitBoard, cells: Seq<Cell>)
    requires
        cells.len() == 36,
        collects(b.white_barrels, cells, Cell::WhiteBarrel, 36),
        collects(b.black_barrels, cells, Cell::BlackBarrel, 36),
        collects(b.white_pail, cells, Cell::WhitePail, 36),
        collects(b.black_pail, cells, Cell::BlackPail, 36),
        b.occupied == (b.white_barrels | b.black_barrels | b.white_pail | b.black_pail),
    ensures
        b.inv(),
        b@.cells == cells,
{
    broadcast use group_has;

    assert forall|t: int| 0 <= t < 64 implies {
        &&& on(b.occupied & !ALL_SQUARES, t) == on(0u64, t)
        &&& on(b.white_barrels & b.black_barrels, t) == on(0u64, t)
        &&& on((b.white_barrels | b.black_barrels) & (b.white_pail | b.black_pail), t) == on(0u64, t)
        &&& on(b.white_pail & b.black_pail, t) == on(0u64, t)
    } by {
        lemma_masks(t);
    }
    lemma_mask_ext(b.occupied & !ALL_SQUARES, 0);
    lemma_mask_ext(b.white_barrels & b.black_barrels, 0);
    lemma_mask_ext((b.white_barrels | b.black_barrels) & (b.white_pail | b.black_pail), 0);
    lemma_mask_ext(b.white_pail & b.black_pail, 0);
    assert forall|t: int| 0 <= t < 36 implies b.cell_at(t) == cells[t] by {
        b.lemma_square(t);
    }
    assert(b@.cells =~= cells);
}

/// Puts `c` on every square of `mask`.
fn fill(board: &mut Board, mask: u64, c: Cell)
    requires
        forall|s: int| #[trigger] on(mask, s) ==> on_board(s),
    ensures
        final(board).same_but_cells(*old(board)),
        forall|t: int|
            0 <= t < 36 ==> #[trigger] final(board)@.cells[t] == (if on(mask, t) { c } else { old(board)@.cells[t] }),
{
    let ghost start = *board;
    let mut rest: u64 = mask;
    while rest != 0
        invariant
            board.same_but_cells(start),
            forall|s: int| #[trigger] on(rest, s) ==> on(mask, s) && on_board(s),
            forall|t: int|
                0 <= t < 36 ==> #[trigger] board@.cells[t] == (if on(mask, t) && !on(rest, t) {
                    c
                } else {
                    start@.cells[t]
                }),
        decreases rest,
    {
        let s: usize = lowest(rest);
        board.set_cell(s, c);
        rest = drop_lowest(rest);
    }
    proof {
        lemma_empty(rest);
    }
}

impl BitBoard {
    /// The start of the game.
    pub fn new() -> (r: Self)
        ensures
            r@ == initial_state(),
            r.hash == hash_of(r@),
            r.inv(),
            r.wf(),
    {
        let r = BitBoard {
            white_barrels: 0,
            black_barrels: 0,
            white_pail: 0,
            black_pail: 0,
            occupied: 0,
            current_player: Player::White,
            awaiting_barrel: false,
            move_count: 0,
            halfmove_clock: 0,
            hash: initial_hash(),
            white_pail_placed: false,
            black_pail_placed: false,
            white_barrels_off_board: BARRELS_PER_PLAYER as u8,
            black_barrels_off_board: BARRELS_PER_PLAYER as u8,
            white_scored: 0,
            black_scored: 0,
        };
        proof {
            broadcast use group_has;

            assert(0u64 | 0u64 | 0u64 | 0u64 == 0u64 && 0u64 & 0u64 == 0u64 && (0u64 | 0u64) & (0u64 | 0u64) == 0u64
                && 0u64 & !ALL_SQUARES == 0) by (bit_vector);
            lemma_collected(r, initial_state().cells);
            assert(r@.cells =~= initial_state().cells);
            lemma_no_barrels(r@.cells, Player::White, 36);
            lemma_no_barrels(r@.cells, Player::Black, 36);
        }
        r
    }

    /// The masks of a grid, with the same counters and hash.
    pub fn from_board(board: &Board) -> (r: Self)
        ensures
            r.inv(),
            r@ == board@,
            r.hash == board.hash,
    {
        let mut white_barrels: u64 = 0;
        let mut black_barrels: u64 = 0;
        let mut white_pail: u64 = 0;
        let mut black_pail: u64 = 0;
        let ghost cells = board@.cells;
        proof {
            broadcast use group_has;

        }
        let mut s: usize = 0;
        while s < 36
            invariant
                s <= 36,
                cells == board@.cells,
                collects(white_barrels, cells, Cell::WhiteBarrel, s as int),
                collects(black_barrels, cells, Cell::BlackBarrel, s as int),
                collects(white_pail, cells, Cell::WhitePail, s as int),
                collects(black_pail, cells, Cell::BlackPail, s as int),
            decreases 36 - s,
        {
            proof {
                lemma_collects_next(white_barrels, cells, Cell::WhiteBarrel, s as int);
                lemma_collects_next(black_barrels, cells, Cell::BlackBarrel, s as int);
                lemma_collects_next(white_pail, cells, Cell::WhitePail, s as int);
                lemma_collects_next(black_pail, cells, Cell::BlackPail, s as int);
            }
            match board.cell(s) {
                Cell::WhiteBarrel => {
                    white_barrels = white_barrels | bit(s);
                },
                Cell::BlackBarrel => {
                    black_barrels = black_barrels | bit(s);
                },
                Cell::WhitePail => {
                    white_pail = white_pail | bit(s);
                },
                Cell::BlackPail => {
                    black_pail = black_pail | bit(s);
                },
                Cell::Empty => {},
            }
            s = s + 1;
        }
        let r = BitBoard {
            white_barrels,
            black_barrels,
            white_pail,
            black_pail,
            occupied: white_barrels | black_barrels | white_pail | black_pail,
            current_player: board.current_player,
            awaiting_barrel: board.awaiting_barrel,
            move_count: board.move_count,
            halfmove_clock: board.halfmove_clock,
            hash: board.hash,
            white_pail_placed: board.white_pail_placed,
            black_pail_placed: board.black_pail_placed,
            white_barrels_off_board: board.white_barrels_off_board,
            black_barrels_off_board: board.black_barrels_off_board,
            white_scored: board.white_scored,
            black_scored: board.black_scored,
        };
        proof {
            lemma_collected(r, cells);
        }
        r
    }

    /// The grid of the masks, with the same counters and hash.
    pub fn to_board(&self) -> (r: Board)
        requires
            self.inv(),
        ensures
            r@ == self@,
            r.hash == self.hash,
    {
        let mut board = Board::new();
        board.current_player = self.current_player;
        board.awaiting_barrel = self.awaiting_barrel;
        board.move_count = self.move_count;
        board.halfmove_clock = self.halfmove_clock;
        board.hash = self.hash;
        board.white_pail_placed = self.white_pail_placed;
        board.black_pail_placed = self.black_pail_placed;
        board.white_barrels_off_board = self.white_barrels_off_board;
        board.black_barrels_off_board = self.black_barrels_off_board;
        board.white_scored = self.white_scored;
        board.black_scored = self.black_scored;
        proof {
            assert forall|t: int| 0 <= t < 36 implies #[trigger] board@.cells[t] == Cell::Empty by {
                assert(initial_state().cells[t] == Cell::Empty);
            }
            assert forall|s: int| on(self.white_barrels, s) || on(self.black_barrels, s) || on(self.white_pail, s) || on(
                self.black_pail,
                s,
            ) implies on_board(s) by {
                self.lemma_square(s);
            }
        }
        fill(&mut board, self.white_barrels, Cell::WhiteBarrel);
        fill(&mut board, self.black_barrels, Cell::BlackBarrel);
        fill(&mut board, self.white_pail, Cell::WhitePail);
        fill(&mut board, self.black_pail, Cell::BlackPail);
        proof {
            assert forall|t: int| 0 <= t < 36 implies board@.cells[t] == self@.cells[t] by {
                self.lemma_square(t);
            }
            assert(board@.cells =~= self@.cells);
        }
        board
    }
}

impl Default for BitBoard {
    fn default() -> (r: Self)
        ensures
            r@ == initial_state(),
            r.hash == hash_of(r@),
            r.wf(),
    {
        BitBoard::new()
    }
}

proof fn lemma_no_barrels(cells: Seq<Cell>, p: Player, n: nat)
    requires
        n <= cells.len(),
        forall|s: int| 0 <= s < n ==> cells[s] == Cell::Empty,
    ensures
        barrels_on(cells, p, n) == 0,
    decreases n,
{
    if n > 0 {
        lemma_no_barrels(cells, p, (n - 1) as nat);
    }
}

impl BitMove {
    /// The move in coordinates.
    pub fn to_move(&self) -> (r: Move)
        requires
            self.valid(),
        ensures
            r.valid(),
            r@ == self@,
            r.is_pail_only == self.pail_only(),
            r.single() == self.single(),
            r.place_pail matches Some(q) ==> q.sq() == self.pail_code(),
            r.barrel_to.sq() == self.to_sq(),
    {
        let to: usize = self.barrel_to() as usize;
        let to_pos = Position::of_square(to);
        if self.is_pail_placement() {
            return Move::pail_only(to_pos);
        }
        let pail: Option<Position> = match self.pail_pos() {
            Some(p) => Some(Position::of_square(p as usize)),
            None => None,
        };
        if self.is_placement() {
            Move::place_barrel(pail, to_pos)
        } else {
            let from: usize = self.barrel_from().unwrap() as usize;
            let from_pos = Position::of_square(from);
            let n: usize = self.path_len();
            let mut path: Vec<Position> = Vec::new();
            let mut i: usize = 0;
            while i < n
                invariant
                    i <= n,
                    n == self.len(),
                    n <= 8,
                    self.valid(),
                    path@.len() == i,
                    forall|k: int| 0 <= k < i ==> (#[trigger] path@[k]).on_grid() && path@[k].sq() == self.path@[k],
                decreases n - i,
            {
                let s: u8 = self.path[i];
                path.push(Position::of_square(s as usize));
                i = i + 1;
            }
            proof {
                assert(path_squares(path@) =~= self.landings());
            }
            Move::move_barrel(pail, from_pos, path)
        }
    }
}

/// Two sound mask boards of the same position and hash are the same.
pub proof fn law_bitboard_is_its_view(a: BitBoard, b: BitBoard)
    requires
        a.inv(),
        b.inv(),
        a@ == b@,
        a.hash == b.hash,
    ensures
        a == b,
{
    assert forall|t: int| 0 <= t < 64 implies {
        &&& on(a.white_barrels, t) == on(b.white_barrels, t)
        &&& on(a.black_barrels, t) == on(b.black_barrels, t)
        &&& on(a.white_pail, t) == on(b.white_pail, t)
        &&& on(a.black_pail, t) == on(b.black_pail, t)
    } by {
        a.lemma_square(t);
        b.lemma_square(t);
        if t < 36 {
            assert(a@.cells[t] == a.cell_at(t));
            assert(b@.cells[t] == b.cell_at(t));
        }
    }
    lemma_mask_ext(a.white_barrels, b.white_barrels);
    lemma_mask_ext(a.black_barrels, b.black_barrels);
    lemma_mask_ext(a.white_pail, b.white_pail);
    lemma_mask_ext(a.black_pail, b.black_pail);
    assert(a.white_barrels_off_board as int == b@.white_off);
    assert(a.black_barrels_off_board as int == b@.black_off);
    assert(a.white_scored as int == b@.white_scored);
    assert(a.black_scored as int == b@.black_scored);
    assert(a.move_count as int == b@.move_count);
    assert(a.halfmove_clock as int == b@.clock);
}

/// The generators of the two boards list the same actions, equally many.
pub proof fn law_generators_agree(bit_moves: Seq<BitMove>, moves: Seq<Move>, st: GameState)
    requires
        lists_legal(bit_moves, st),
        gains(Seq::empty(), actions_of(moves), |a: Action| st.legal(a)),
    ensures
        forall|a: Action| has_action(bit_moves, 0, a) == found(actions_of(moves), 0, a),
        bit_moves.len() == moves.len(),
{
    reveal(gains);
    let acts = actions_of(moves);
    let bits = Seq::new(bit_moves.len(), |i: int| bit_moves[i]@);
    let k = |a: Action| st.legal(a);
    assert forall|a: Action| has_action(bit_moves, 0, a) == found(acts, 0, a) by {
        if has_action(bit_moves, 0, a) {
            let i = choose|i: int| 0 <= i < bit_moves.len() && (#[trigger] bit_moves[i])@ == a;
            assert(k(a));
        }
        if found(acts, 0, a) {
            let i = choose|i: int| 0 <= i < acts.len() && #[trigger] acts[i] == a;
            assert(k(acts[i]));
        }
    }
    assert(bits.no_duplicates()) by {
        assert forall|i: int, j: int| 0 <= i < bits.len() && 0 <= j < bits.len() && i != j implies bits[i] != bits[j] by {
            if i < j {
                assert(bit_moves[i]@ != bit_moves[j]@);
            } else {
                assert(bit_moves[j]@ != bit_moves[i]@);
            }
        }
    }
    assert(acts.no_duplicates()) by {
        assert forall|i: int, j: int| 0 <= i < acts.len() && 0 <= j < acts.len() && i != j implies acts[i] != acts[j] by {
            if i < j {
                assert(acts[i] != acts[j]);
            } else {
                assert(acts[j] != acts[i]);
            }
        }
    }
    bits.unique_seq_to_set();
    acts.unique_seq_to_set();
    assert(bits.to_set() =~= acts.to_set()) by {
        assert forall|a: Action| bits.to_set().contains(a) == acts.to_set().contains(a) by {
            if bits.to_set().contains(a) {
                let i = choose|i: int| 0 <= i < bits.len() && bits[i] == a;
                assert(bit_moves[i]@ == a);
                assert(has_action(bit_moves, 0, a));
                assert(found(acts, 0, a));
                let j = choose|j: int| 0 <= j < acts.len() && #[trigger] acts[j] == a;
                assert(acts.contains(a));
            }
            if acts.to_set().contains(a) {
                let i = choose|i: int| 0 <= i < acts.len() && acts[i] == a;
                assert(found(acts, 0, a));
                assert(has_action(bit_moves, 0, a));
                let j = choose|j: int| 0 <= j < bit_moves.len() && (#[trigger] bit_moves[j])@ == a;
                assert(bits[j] == a);
                assert(bits.contains(a));
            }
        }
    }
}

} // verus!
