//! The pieces of the game and the board as a grid of cells.
use vstd::prelude::*;
use crate::rules::{
    barrel_of, goal_row_of, cells_hash, hash_after, hash_arrive, hash_cell, hash_hand, hash_of, hash_pail,
    initial_state, pail_of, start_row, Action, GameState,
};
use crate::squares::{col_of, row_of, BARRELS_PER_PLAYER, BOARD_SIZE};
use crate::zobrist::{key_of, key_of_side, side_key, zobrist_off_board_key};

verus! {

/// A side of the game. White moves up the board to row 0, black down to row 5.
#[derive(Clone, Copy, PartialEq, Eq, Debug, Structural)]
pub enum Player {
    White,
    Black,
}

impl Player {
    pub open spec fn spec_opponent(&self) -> Player {
        match self {
            Player::White => Player::Black,
            Player::Black => Player::White,
        }
    }

    #[verifier::when_used_as_spec(spec_opponent)]
    pub fn opponent(&self) -> (r: Player)
        ensures
            r == self.spec_opponent(),
    {
        match self {
            Player::White => Player::Black,
            Player::Black => Player::White,
        }
    }
}

/// The content of a square.
#[derive(Clone, Copy, PartialEq, Eq, Debug, Structural)]
pub enum Cell {
    Empty,
    WhiteBarrel,
    BlackBarrel,
    WhitePail,
    BlackPail,
}

impl Cell {
    pub fn is_barrel(&self) -> (r: bool)
        ensures
            r == (self == Cell::WhiteBarrel || self == Cell::BlackBarrel),
    {
        matches!(self, Cell::WhiteBarrel | Cell::BlackBarrel)
    }

    pub fn is_pail(&self) -> (r: bool)
        ensures
            r == (self == Cell::WhitePail || self == Cell::BlackPail),
    {
        matches!(self, Cell::WhitePail | Cell::BlackPail)
    }

    pub fn is_barrel_of(&self, player: Player) -> (r: bool)
        ensures
            r == (self == barrel_of(player)),
    {
        match (self, player) {
            (Cell::WhiteBarrel, Player::White) => true,
            (Cell::BlackBarrel, Player::Black) => true,
            _ => false,
        }
    }
}

/// A square by row and column, on the board or not.
#[derive(Clone, Copy, PartialEq, Eq, Debug, Hash, Structural)]
pub struct Position {
    pub row: i8,
    pub col: i8,
}

impl Position {
    pub open spec fn on_grid(&self) -> bool {
        0 <= self.row < 6 && 0 <= self.col < 6
    }

    /// The square index; meaningful on the board.
    pub open spec fn sq(&self) -> int {
        self.row * 6 + self.col
    }

    pub fn new(row: i8, col: i8) -> (r: Self)
        ensures
            r.row == row,
            r.col == col,
    {
        Position { row, col }
    }

    pub fn is_valid(&self) -> (r: bool)
        ensures
            r == self.on_grid(),
    {
        self.row >= 0 && self.row < BOARD_SIZE as i8 && self.col >= 0 && self.col < BOARD_SIZE as i8
    }

    pub(crate) fn index(&self) -> (r: usize)
        requires
            self.on_grid(),
        ensures
            r == self.sq(),
            r < 36,
    {
        self.row as usize * BOARD_SIZE + self.col as usize
    }

    /// The position of a square index.
    pub(crate) fn of_square(s: usize) -> (r: Self)
        requires
            s < 36,
        ensures
            r.on_grid(),
            r.sq() == s,
            r.row == row_of(s as int),
            r.col == col_of(s as int),
    {
        Position { row: (s / BOARD_SIZE) as i8, col: (s % BOARD_SIZE) as i8 }
    }
}

/// A move in coordinates: an optional pail square and a barrel placement or
/// walk, or the pail sub-move alone.
#[derive(Clone, Debug)]
pub struct Move {
    pub place_pail: Option<Position>,
    pub is_pail_only: bool,
    pub is_barrel_placement: bool,
    /// Where the barrel comes from; none for a placement or a pail sub-move.
    pub barrel_from: Option<Position>,
    pub barrel_to: Position,
    /// The squares the barrel lands on, in order.
    pub barrel_path: Vec<Position>,
}

/// The square indices of a path.
pub open spec fn path_squares(path: Seq<Position>) -> Seq<int> {
    Seq::new(path.len(), |i: int| path[i].sq())
}

impl Move {
    /// The action this move stands for, an accompanying pail square aside.
    pub open spec fn view(&self) -> Action {
        if self.is_pail_only {
            Action::Pail { at: self.place_pail->0.sq() }
        } else if self.is_barrel_placement {
            Action::Place { to: self.barrel_to.sq() }
        } else {
            Action::Walk { from: self.barrel_from->0.sq(), path: path_squares(self.barrel_path@) }
        }
    }

    /// The fields agree with each other and name squares of the board.
    pub open spec fn valid(&self) -> bool {
        &&& self.barrel_to.on_grid()
        &&& self.place_pail matches Some(q) ==> q.on_grid()
        &&& self.is_pail_only ==> self.place_pail == Some(self.barrel_to) && !self.is_barrel_placement
            && self.barrel_from is None
        &&& !self.is_pail_only && !self.is_barrel_placement ==> {
            &&& self.barrel_from matches Some(f) && f.on_grid()
            &&& self.barrel_path@.len() > 0
            &&& self.barrel_path@.last() == self.barrel_to
        }
    }

    /// No pail comes with the barrel: the move is a single action.
    pub open spec fn single(&self) -> bool {
        self.is_pail_only || self.place_pail is None
    }

    pub fn new(
        place_pail: Option<Position>,
        is_barrel_placement: bool,
        barrel_from: Option<Position>,
        barrel_to: Position,
        barrel_path: Vec<Position>,
    ) -> (r: Self)
        ensures
            r.place_pail == place_pail,
            !r.is_pail_only,
            r.is_barrel_placement == is_barrel_placement,
            r.barrel_from == barrel_from,
            r.barrel_to == barrel_to,
            r.barrel_path == barrel_path,
    {
        Move { place_pail, is_pail_only: false, is_barrel_placement, barrel_from, barrel_to, barrel_path }
    }

    /// The pail sub-move.
    pub fn pail_only(pail: Position) -> (r: Self)
        ensures
            r.is_pail_only,
            r.place_pail == Some(pail),
            r.barrel_to == pail,
            !r.is_barrel_placement,
            r.barrel_from is None,
            r.barrel_path@ == seq![pail],
            pail.on_grid() ==> r.valid() && r.single() && r@ == (Action::Pail { at: pail.sq() }),
    {
        let barrel_path: Vec<Position> = vec![pail];
        assert(barrel_path@ =~= seq![pail]);
        Move {
            place_pail: Some(pail),
            is_pail_only: true,
            is_barrel_placement: false,
            barrel_from: None,
            barrel_to: pail,
            barrel_path,
        }
    }

    /// A new barrel on `to`.
    pub fn place_barrel(pail: Option<Position>, to: Position) -> (r: Self)
        ensures
            r.place_pail == pail,
            !r.is_pail_only,
            r.is_barrel_placement,
            r.barrel_from is None,
            r.barrel_to == to,
            r.barrel_path@ == seq![to],
    {
        let barrel_path: Vec<Position> = vec![to];
        assert(barrel_path@ =~= seq![to]);
        Move {
            place_pail: pail,
            is_pail_only: false,
            is_barrel_placement: true,
            barrel_from: None,
            barrel_to: to,
            barrel_path,
        }
    }

    /// A barrel from `from` along `path`; an empty path ends where it starts.
    pub fn move_barrel(pail: Option<Position>, from: Position, path: Vec<Position>) -> (r: Self)
        ensures
            r.place_pail == pail,
            !r.is_pail_only,
            !r.is_barrel_placement,
            r.barrel_from == Some(from),
            r.barrel_to == (if path@.len() > 0 { path@.last() } else { from }),
            r.barrel_path == path,
    {
        let to = if path.len() > 0 { path[path.len() - 1] } else { from };
        Move {
            place_pail: pail,
            is_pail_only: false,
            is_barrel_placement: false,
            barrel_from: Some(from),
            barrel_to: to,
            barrel_path: path,
        }
    }

    /// The move's index among the 37 * 36 policy outputs: origin times 36 plus
    /// destination, with 36 as the origin of placements.
    pub fn policy_index(&self) -> (r: u16)
        requires
            self.barrel_to.on_grid(),
            self.barrel_from matches Some(f) ==> f.on_grid(),
        ensures
            r == (if !self.is_barrel_placement && self.barrel_from is Some {
                self.barrel_from->0.sq()
            } else {
                36
            }) * 36 + self.barrel_to.sq(),
            r < 1332,
    {
        let to_idx: u16 = (self.barrel_to.row * 6 + self.barrel_to.col) as u16;
        let from_idx: u16 = if self.is_barrel_placement {
            36u16
        } else if let Some(pos) = &self.barrel_from {
            (pos.row * 6 + pos.col) as u16
        } else {
            36u16
        };
        from_idx * 36 + to_idx
    }
}

/// The board as a grid of cells, with the counters beside it.
#[derive(Clone)]
pub struct Board {
    pub cells: [[Cell; BOARD_SIZE]; BOARD_SIZE],
    pub current_player: Player,
    pub awaiting_barrel: bool,
    pub move_count: u32,
    pub halfmove_clock: u16,
    pub hash: u64,
    pub white_pail_placed: bool,
    pub black_pail_placed: bool,
    pub white_barrels_off_board: u8,
    pub black_barrels_off_board: u8,
    pub white_scored: u8,
    pub black_scored: u8,
}

impl Board {
    pub open spec fn view(&self) -> GameState {
        GameState {
            cells: Seq::new(36, |s: int| self.cells@[s / 6]@[s % 6]),
            player: self.current_player,
            awaiting_barrel: self.awaiting_barrel,
            white_pail_placed: self.white_pail_placed,
            black_pail_placed: self.black_pail_placed,
            white_off: self.white_barrels_off_board as int,
            black_off: self.black_barrels_off_board as int,
            white_scored: self.white_scored as int,
            black_scored: self.black_scored as int,
            move_count: self.move_count as int,
            clock: self.halfmove_clock as int,
        }
    }

    /// The same board with other cells.
    pub open spec fn same_but_cells(&self, other: Board) -> bool {
        *self == (Board { cells: self.cells, ..other })
    }

    /// The start of the game.
    pub fn new() -> (r: Self)
        ensures
            r@ == initial_state(),
            r.hash == hash_of(r@),
    {
        let r = Board {
            cells: [[Cell::Empty; BOARD_SIZE]; BOARD_SIZE],
            current_player: Player::White,
            awaiting_barrel: false,
            move_count: 0,
            halfmove_clock: 0,
            hash: initial_hash(),
            white_pail_placed: false,
            black_pail_placed: false,
            white_barrels_off_board: BARRELS_PER_PLAYER as u8,
            black_barrels_off_board: BARRELS_PER_PLAYER as u8,
            white_scored: 0,
            black_scored: 0,
        };
        assert(r@.cells =~= initial_state().cells);
        r
    }

    /// The content of square `s`.
    pub(crate) fn cell(&self, s: usize) -> (r: Cell)
        requires
            s < 36,
        ensures
            r == self@.cells[s as int],
    {
        self.cells[s / BOARD_SIZE][s % BOARD_SIZE]
    }

    pub(crate) fn set_cell(&mut self, s: usize, c: Cell)
        requires
            s < 36,
        ensures
            final(self).same_but_cells(*old(self)),
            final(self)@ == old(self)@.with_cell(s as int, c),
    {
        let ghost start = *self;
        let mut row = self.cells[s / BOARD_SIZE];
        row[s % BOARD_SIZE] = c;
        self.cells[s / BOARD_SIZE] = row;
        proof {
            assert forall|t: int| 0 <= t < 36 implies self@.cells[t] == start@.cells.update(s as int, c)[t] by {
                if t / 6 == s / 6 && t % 6 == s % 6 {
                    assert(t == s);
                }
            }
            assert(self@.cells =~= start@.cells.update(s as int, c));
        }
    }

    /// The side to move has placed its pail.
    pub fn current_player_has_pail(&self) -> (r: bool)
        ensures
            r == self@.pail_placed(self.current_player),
    {
        match self.current_player {
            Player::White => self.white_pail_placed,
            Player::Black => self.black_pail_placed,
        }
    }

    /// The number of barrels the side to move has in hand.
    pub fn current_player_barrels_off_board(&self) -> (r: u8)
        ensures
            r == self@.off(self.current_player),
    {
        match self.current_player {
            Player::White => self.white_barrels_off_board,
            Player::Black => self.black_barrels_off_board,
        }
    }

    /// The row on which a side places its barrels: 5 for white, 0 for black.
    pub fn starting_row(&self, player: Player) -> (r: usize)
        ensures
            r == start_row(player),
    {
        match player {
            Player::White => BOARD_SIZE - 1,
            Player::Black => 0,
        }
    }

    /// The row on which a side scores: 0 for white, 5 for black.
    pub fn goal_row(&self, player: Player) -> (r: usize)
        ensures
            r == goal_row_of(player),
    {
        match player {
            Player::White => 0,
            Player::Black => BOARD_SIZE - 1,
        }
    }

    pub fn get_hash(&self) -> (r: u64)
        ensures
            r == self.hash,
    {
        self.hash
    }

    /// The content of a position, none off the board.
    pub fn get(&self, pos: Position) -> (r: Option<Cell>)
        ensures
            r == (if pos.on_grid() { Some(self@.cells[pos.sq()]) } else { None }),
    {
        if pos.is_valid() {
            Some(self.cell(pos.index()))
        } else {
            None
        }
    }

    /// Puts `cell` on a position; off the board nothing happens. Only the cell
    /// changes, neither the hash nor a counter.
    pub fn set(&mut self, pos: Position, cell: Cell)
        ensures
            final(self).same_but_cells(*old(self)),
            final(self)@ == (if pos.on_grid() { old(self)@.with_cell(pos.sq(), cell) } else { old(self)@ }),
            !pos.on_grid() ==> *final(self) == *old(self),
    {
        if pos.is_valid() {
            self.set_cell(pos.index(), cell);
        }
    }

    /// The first square, row by row, that holds the pail of `player`.
    pub fn find_pail(&self, player: Player) -> (r: Option<Position>)
        ensures
            match r {
                Some(p) => p.on_grid() && self@.cells[p.sq()] == pail_of(player) && forall|s: int|
                    0 <= s < p.sq() ==> self@.cells[s] != pail_of(player),
                None => forall|s: int| 0 <= s < 36 ==> self@.cells[s] != pail_of(player),
            },
    {
        let target: Cell = match player {
            Player::White => Cell::WhitePail,
            Player::Black => Cell::BlackPail,
        };
        let mut s: usize = 0;
        while s < 36
            invariant
                s <= 36,
                target == pail_of(player),
                forall|t: int| 0 <= t < s ==> self@.cells[t] != pail_of(player),
            decreases 36 - s,
        {
            if self.cell(s) == target {
                return Some(Position::of_square(s));
            }
            s = s + 1;
        }
        None
    }

    /// The squares that hold a barrel of `player`, row by row.
    pub fn find_barrels(&self, player: Player) -> (r: Vec<Position>)
        ensures
            path_squares(r@) == barrel_squares(self@.cells, player, 36),
            forall|i: int| 0 <= i < r@.len() ==> (#[trigger] r@[i]).on_grid(),
    {
        let mut barrels: Vec<Position> = Vec::new();
        let mut s: usize = 0;
        assert(path_squares(barrels@) =~= Seq::empty());
        while s < 36
            invariant
                s <= 36,
                path_squares(barrels@) == barrel_squares(self@.cells, player, s as nat),
                forall|i: int| 0 <= i < barrels@.len() ==> (#[trigger] barrels@[i]).on_grid(),
            decreases 36 - s,
        {
            if self.cell(s).is_barrel_of(player) {
                let ghost before = barrels@;
                barrels.push(Position::of_square(s));
                assert(path_squares(barrels@) =~= path_squares(before).push(s as int));
            }
            s = s + 1;
        }
        barrels
    }

    /// The side with all four barrels home, if any; white is asked first.
    pub fn check_winner(&self) -> (r: Option<Player>)
        ensures
            r == self@.winner(),
    {
        if self.white_scored == BARRELS_PER_PLAYER as u8 {
            return Some(Player::White);
        }
        if self.black_scored == BARRELS_PER_PLAYER as u8 {
            return Some(Player::Black);
        }
        None
    }

    /// The grid as numbers: 0 empty, 1 and -1 barrels, 2 and -2 pails, white
    /// positive.
    pub fn to_array(&self) -> (r: Vec<Vec<i8>>)
        ensures
            r@.len() == 6,
            forall|i: int| 0 <= i < 6 ==> (#[trigger] r@[i])@.len() == 6,
            forall|i: int, j: int|
                0 <= i < 6 && 0 <= j < 6 ==> #[trigger] r@[i]@[j] == cell_number(self@.cells[i * 6 + j]),
    {
        let mut out: Vec<Vec<i8>> = Vec::new();
        let mut i: usize = 0;
        while i < BOARD_SIZE
            invariant
                i <= 6,
                out@.len() == i,
                forall|k: int| 0 <= k < i ==> (#[trigger] out@[k])@.len() == 6,
                forall|k: int, j: int|
                    0 <= k < i && 0 <= j < 6 ==> #[trigger] out@[k]@[j] == cell_number(self@.cells[k * 6 + j]),
            decreases 6 - i,
        {
            let mut row: Vec<i8> = Vec::new();
            let mut j: usize = 0;
            while j < BOARD_SIZE
                invariant
                    i < 6,
                    j <= 6,
                    row@.len() == j,
                    forall|k: int| 0 <= k < j ==> #[trigger] row@[k] == cell_number(self@.cells[i * 6 + k]),
                decreases 6 - j,
            {
                let n: i8 = match self.cell(i * BOARD_SIZE + j) {
                    Cell::Empty => 0,
                    Cell::WhiteBarrel => 1,
                    Cell::BlackBarrel => -1,
                    Cell::WhitePail => 2,
                    Cell::BlackPail => -2,
                };
                row.push(n);
                j = j + 1;
            }
            out.push(row);
            i = i + 1;
        }
        out
    }

    /// A copy of the board.
    pub fn copy(&self) -> (r: Board)
        ensures
            r == *self,
    {
        Board {
            cells: self.cells,
            current_player: self.current_player,
            awaiting_barrel: self.awaiting_barrel,
            move_count: self.move_count,
            halfmove_clock: self.halfmove_clock,
            hash: self.hash,
            white_pail_placed: self.white_pail_placed,
            black_pail_placed: self.black_pail_placed,
            white_barrels_off_board: self.white_barrels_off_board,
            black_barrels_off_board: self.black_barrels_off_board,
            white_scored: self.white_scored,
            black_scored: self.black_scored,
        }
    }

    /// The move names squares of the board and no counter runs over.
    pub open spec fn playable(&self, mv: Move) -> bool {
        let p = self.current_player;
        &&& mv.place_pail matches Some(q) ==> q.on_grid() && !self@.pail_placed(p)
        &&& !mv.is_pail_only ==> {
            &&& mv.barrel_to.on_grid()
            &&& mv.is_barrel_placement ==> 1 <= self@.off(p) <= 4
            &&& !mv.is_barrel_placement ==> (mv.barrel_from matches Some(f) && f.on_grid())
            &&& mv.barrel_to.row == goal_row_of(p) ==> self@.scored(p) < 255
            &&& self.move_count < u32::MAX
            &&& !mv.is_barrel_placement && mv.barrel_to.row != goal_row_of(p) && mv.place_pail is None
                ==> self.halfmove_clock < u16::MAX
        }
    }

    /// The move names squares of the board and no counter runs over.
    pub fn can_play(&self, mv: &Move) -> (r: bool)
        ensures
            r == self.playable(*mv),
    {
        let player: Player = self.current_player;
        if let Some(q) = &mv.place_pail {
            if !q.is_valid() || self.current_player_has_pail() {
                return false;
            }
        }
        if mv.is_pail_only {
            return true;
        }
        if !mv.barrel_to.is_valid() || self.move_count == u32::MAX {
            return false;
        }
        let off: u8 = self.current_player_barrels_off_board();
        if mv.is_barrel_placement && (off < 1 || off > 4) {
            return false;
        }
        if !mv.is_barrel_placement {
            match &mv.barrel_from {
                Some(f) => {
                    if !f.is_valid() {
                        return false;
                    }
                },
                None => {
                    return false;
                },
            }
        }
        let scores: bool = mv.barrel_to.row as usize == self.goal_row(player);
        let scored: u8 = match player {
            Player::White => self.white_scored,
            Player::Black => self.black_scored,
        };
        if scores && scored == u8::MAX {
            return false;
        }
        mv.is_barrel_placement || scores || mv.place_pail.is_some() || self.halfmove_clock < u16::MAX
    }

    /// The barrel part of a move as an action.
    pub open spec fn barrel_action(mv: Move) -> Action {
        if mv.is_barrel_placement {
            Action::Place { to: mv.barrel_to.sq() }
        } else {
            Action::Walk { from: mv.barrel_from->0.sq(), path: seq![mv.barrel_to.sq()] }
        }
    }

    /// The position after the pail part of a move.
    pub open spec fn after_pail(&self, mv: Move) -> GameState {
        match mv.place_pail {
            Some(q) => self@.apply(Action::Pail { at: q.sq() }),
            None => self@,
        }
    }

    pub open spec fn hash_after_pail(&self, mv: Move) -> u64 {
        match mv.place_pail {
            Some(q) => hash_pail(self.hash, self.current_player, q.sq()),
            None => self.hash,
        }
    }

    fn rekey(&mut self, s: usize, a: Cell, b: Cell)
        requires
            s < 36,
        ensures
            final(self).hash == hash_cell(old(self).hash, s as int, a, b),
            *final(self) == (Board { hash: final(self).hash, ..*old(self) }),
    {
        self.hash = self.hash ^ key_of(s, a);
        self.hash = self.hash ^ key_of(s, b);
    }

    fn put_pail(&mut self, s: usize)
        requires
            s < 36,
        ensures
            final(self)@ == old(self)@.apply(Action::Pail { at: s as int }),
            final(self).hash == hash_pail(old(self).hash, old(self).current_player, s as int),
    {
        let ghost start = *self;
        let pail_cell: Cell = match self.current_player {
            Player::White => Cell::WhitePail,
            Player::Black => Cell::BlackPail,
        };
        self.rekey(s, Cell::Empty, pail_cell);
        self.set_cell(s, pail_cell);
        match self.current_player {
            Player::White => {
                self.white_pail_placed = true;
            },
            Player::Black => {
                self.black_pail_placed = true;
            },
        }
        self.awaiting_barrel = true;
        self.halfmove_clock = 0;
        assert(self@.cells =~= start@.cells.update(s as int, pail_cell));
    }

    fn take_from_hand(&mut self)
        requires
            1 <= old(self)@.off(old(self).current_player) <= 4,
        ensures
            final(self)@ == old(self)@.with_off(
                old(self).current_player,
                old(self)@.off(old(self).current_player) - 1,
            ),
            final(self).hash == hash_hand(
                old(self).hash,
                old(self).current_player,
                old(self)@.off(old(self).current_player),
            ),
    {
        let ghost start = *self;
        let (player, n): (usize, u8) = match self.current_player {
            Player::White => (0, self.white_barrels_off_board),
            Player::Black => (1, self.black_barrels_off_board),
        };
        self.hash = self.hash ^ zobrist_off_board_key(player, n as usize);
        self.hash = self.hash ^ zobrist_off_board_key(player, n as usize - 1);
        match self.current_player {
            Player::White => {
                self.white_barrels_off_board = n - 1;
            },
            Player::Black => {
                self.black_barrels_off_board = n - 1;
            },
        }
        assert(self@.cells =~= start@.cells);
    }

    fn land_barrel(&mut self, to: usize)
        requires
            to < 36,
            row_of(to as int) == goal_row_of(old(self).current_player) ==> old(self)@.scored(
                old(self).current_player,
            ) < 255,
        ensures
            final(self)@ == old(self)@.arrive(to as int),
            final(self).hash == hash_arrive(old(self).hash, old(self).current_player, to as int),
    {
        let ghost start = *self;
        if to / BOARD_SIZE == self.goal_row(self.current_player) {
            match self.current_player {
                Player::White => {
                    self.white_scored = self.white_scored + 1;
                },
                Player::Black => {
                    self.black_scored = self.black_scored + 1;
                },
            }
            assert(self@.cells =~= start@.cells);
        } else {
            let barrel_cell: Cell = match self.current_player {
                Player::White => Cell::WhiteBarrel,
                Player::Black => Cell::BlackBarrel,
            };
            self.rekey(to, Cell::Empty, barrel_cell);
            assert(self@.cells =~= start@.cells);
            self.set_cell(to, barrel_cell);
        }
    }

    fn pass_turn(&mut self, clock: u16)
        requires
            old(self).move_count < u32::MAX,
        ensures
            final(self)@ == old(self)@.end_turn(clock as int),
            final(self).hash == old(self).hash ^ side_key(),
    {
        let ghost start = *self;
        self.hash = self.hash ^ key_of_side();
        self.current_player = self.current_player.opponent();
        self.awaiting_barrel = false;
        self.move_count = self.move_count + 1;
        self.halfmove_clock = clock;
        assert(self@.cells =~= start@.cells);
    }

    /// Plays a move: its pail part, then its barrel part unless it is a pail
    /// sub-move. Always true.
    pub fn make_move(&mut self, mv: &Move) -> (r: bool)
        requires
            old(self).playable(*mv),
        ensures
            r,
            mv.is_pail_only ==> final(self)@ == old(self).after_pail(*mv) && final(self).hash == old(self).hash_after_pail(*mv),
            !mv.is_pail_only ==> final(self)@ == old(self).after_pail(*mv).apply(Board::barrel_action(*mv))
                && final(self).hash == hash_after(
                old(self).hash_after_pail(*mv),
                old(self).after_pail(*mv),
                Board::barrel_action(*mv),
            ),
            mv.valid() && mv.single() ==> final(self)@ == old(self)@.apply(mv@) && final(self).hash == hash_after(
                old(self).hash,
                old(self)@,
                mv@,
            ),
    {
        if let Some(pail_pos) = mv.place_pail {
            self.put_pail(pail_pos.index());
        }
        if !mv.is_pail_only {
            let to: usize = mv.barrel_to.index();
            let scores: bool = mv.barrel_to.row as usize == self.goal_row(self.current_player);
            if mv.is_barrel_placement {
                self.take_from_hand();
                self.land_barrel(to);
                self.pass_turn(0);
            } else {
                let from: usize = mv.barrel_from.unwrap().index();
                let barrel_cell: Cell = match self.current_player {
                    Player::White => Cell::WhiteBarrel,
                    Player::Black => Cell::BlackBarrel,
                };
                let clock: u16 = if scores { 0 } else { self.halfmove_clock + 1 };
                let ghost before = *self;
                self.rekey(from, barrel_cell, Cell::Empty);
                assert(self@.cells =~= before@.cells);
                self.set_cell(from, Cell::Empty);
                self.land_barrel(to);
                self.pass_turn(clock);
                assert(Board::barrel_action(*mv)->path.last() == to);
            }
        }
        proof {
            if mv.valid() && mv.single() && !mv.is_pail_only && !mv.is_barrel_placement {
                assert(path_squares(mv.barrel_path@).last() == mv.barrel_to.sq());
            }
        }
        true
    }
}

/// The number that stands for a cell in `Board::to_array`.
pub open spec fn cell_number(c: Cell) -> int {
    match c {
        Cell::Empty => 0,
        Cell::WhiteBarrel => 1,
        Cell::BlackBarrel => -1,
        Cell::WhitePail => 2,
        Cell::BlackPail => -2,
    }
}

/// The squares below `n` that hold a barrel of `p`, in ascending order.
pub open spec fn barrel_squares(cells: Seq<Cell>, p: Player, n: nat) -> Seq<int>
    decreases n,
{
    if n == 0 {
        Seq::empty()
    } else if cells[n - 1] == barrel_of(p) {
        barrel_squares(cells, p, (n - 1) as nat).push(n - 1)
    } else {
        barrel_squares(cells, p, (n - 1) as nat)
    }
}

/// The hash of the start of the game.
pub(crate) fn initial_hash() -> (r: u64)
    ensures
        r == hash_of(initial_state()),
{
    let mut hash: u64 = 0;
    let mut s: usize = 0;
    while s < 36
        invariant
            s <= 36,
            hash == cells_hash(initial_state().cells, s as nat),
        decreases 36 - s,
    {
        hash = hash ^ key_of(s, Cell::Empty);
        s = s + 1;
    }
    proof {
        assert(hash ^ 0u64 == hash) by (bit_vector);
    }
    hash ^ zobrist_off_board_key(0, BARRELS_PER_PLAYER) ^ zobrist_off_board_key(1, BARRELS_PER_PLAYER)
}

/// Two boards of the same position and hash are the same board.
pub proof fn law_board_is_its_view(a: Board, b: Board)
    requires
        a@ == b@,
        a.hash == b.hash,
    ensures
        a == b,
{
    assert forall|i: int| 0 <= i < 6 implies a.cells@[i] == b.cells@[i] by {
        assert forall|j: int| 0 <= j < 6 implies a.cells@[i]@[j] == b.cells@[i]@[j] by {
            let s = i * 6 + j;
            assert(s / 6 == i && s % 6 == j);
            assert(a@.cells[s] == a.cells@[i]@[j]);
            assert(b@.cells[s] == b.cells@[i]@[j]);
        }
        assert(a.cells@[i]@ =~= b.cells@[i]@);
        assert(a.cells@[i] =~= b.cells@[i]);
    }
    assert(a.cells@ =~= b.cells@);
    assert(a.cells =~= b.cells);
    assert(a.white_barrels_off_board as int == b@.white_off);
    assert(a.black_barrels_off_board as int == b@.black_off);
    assert(a.white_scored as int == b@.white_scored);
    assert(a.black_scored as int == b@.black_scored);
    assert(a.move_count as int == b@.move_count);
    assert(a.halfmove_clock as int == b@.clock);
}

} // verus!
