//! Making and taking back moves on masks, with the hash kept up to date.
use vstd::prelude::*;
use crate::bitboard::BitBoard;
use crate::bitmove::BitMove;
use crate::bits::{group_has, lemma_mask_ext, on};
use crate::board::{Cell, Player};
use crate::rules::{
    barrel_of, barrel_total, cells_hash, goal_row_of, hash_after, hash_of, jump_chain, law_barrels_conserved, lemma_chain_squares,
    pail_of, player_index, Action, GameState,
};
use crate::squares::{bit, lemma_masks, on_board, row_of, sq_to_coords, ALL_SQUARES};
use crate::zobrist::{
    key_of, key_of_side, off_board_key, piece_key, side_key, zobrist_off_board_key,
};

verus! {

/// Everything a move can change, saved before the move.
#[derive(Clone, Copy, Debug)]
pub struct UndoInfo {
    pub white_barrels: u64,
    pub black_barrels: u64,
    pub white_pail: u64,
    pub black_pail: u64,
    pub occupied: u64,
    pub current_player: Player,
    pub awaiting_barrel: bool,
    pub move_count: u32,
    pub halfmove_clock: u16,
    pub hash: u64,
    pub white_pail_placed: bool,
    pub black_pail_placed: bool,
    pub white_barrels_off_board: u8,
    pub black_barrels_off_board: u8,
    pub white_scored: u8,
    pub black_scored: u8,
}

impl UndoInfo {
    /// The board that was saved.
    pub open spec fn saved(&self) -> BitBoard {
        BitBoard {
            white_barrels: self.white_barrels,
            black_barrels: self.black_barrels,
            white_pail: self.white_pail,
            black_pail: self.black_pail,
            occupied: self.occupied,
            current_player: self.current_player,
            awaiting_barrel: self.awaiting_barrel,
            move_count: self.move_count,
            halfmove_clock: self.halfmove_clock,
            hash: self.hash,
            white_pail_placed: self.white_pail_placed,
            black_pail_placed: self.black_pail_placed,
            white_barrels_off_board: self.white_barrels_off_board,
            black_barrels_off_board: self.black_barrels_off_board,
            white_scored: self.white_scored,
            black_scored: self.black_scored,
        }
    }
}

/// A mask of at most one square of the board.
pub open spec fn at_most_one(m: u64) -> bool {
    m == 0 || exists|s: u64| s < 36 && m == #[trigger] (1u64 << s)
}

impl BitBoard {
    /// A position the game can be in: each side's four barrels are on the
    /// board, in hand or home, none stands on its goal row, and a pail on the
    /// board has been placed.
    pub open spec fn wf(&self) -> bool {
        &&& self.inv()
        &&& self.white_pail != 0 ==> self.white_pail_placed
        &&& self.black_pail != 0 ==> self.black_pail_placed
        &&& at_most_one(self.white_pail)
        &&& at_most_one(self.black_pail)
        &&& barrel_total(self@, Player::White) == 4
        &&& barrel_total(self@, Player::Black) == 4
        &&& forall|s: int| #[trigger] on(self.white_barrels, s) ==> row_of(s) != goal_row_of(Player::White)
        &&& forall|s: int| #[trigger] on(self.black_barrels, s) ==> row_of(s) != goal_row_of(Player::Black)
        &&& self.awaiting_barrel ==> self@.pail_placed(self.current_player)
    }

    /// A pail that has been placed is on the board.
    pub open spec fn shows_pails(&self) -> bool {
        self.white_pail_placed == (self.white_pail != 0) && self.black_pail_placed == (self.black_pail != 0)
    }

    /// A position that play from the start can lead to, as far as its pieces go.
    pub open spec fn proper(&self) -> bool {
        self.wf() && self.shows_pails()
    }

    pub open spec fn with_pail(&self, s: int) -> BitBoard {
        let p = self.current_player;
        let b = 1u64 << (s as u64);
        let hash = self.hash ^ piece_key(s, Cell::Empty) ^ piece_key(s, pail_of(p));
        match p {
            Player::White => BitBoard {
                white_pail: b,
                white_pail_placed: true,
                awaiting_barrel: true,
                halfmove_clock: 0,
                occupied: self.occupied | b,
                hash,
                ..*self
            },
            Player::Black => BitBoard {
                black_pail: b,
                black_pail_placed: true,
                awaiting_barrel: true,
                halfmove_clock: 0,
                occupied: self.occupied | b,
                hash,
                ..*self
            },
        }
    }

    pub open spec fn with_barrel(&self, s: int) -> BitBoard {
        let p = self.current_player;
        let b = 1u64 << (s as u64);
        let hash = self.hash ^ piece_key(s, Cell::Empty) ^ piece_key(s, barrel_of(p));
        match p {
            Player::White => BitBoard {
                white_barrels: self.white_barrels | b,
                occupied: self.occupied | b,
                hash,
                ..*self
            },
            Player::Black => BitBoard {
                black_barrels: self.black_barrels | b,
                occupied: self.occupied | b,
                hash,
                ..*self
            },
        }
    }

    pub open spec fn without_barrel(&self, s: int) -> BitBoard {
        let p = self.current_player;
        let b = 1u64 << (s as u64);
        let hash = self.hash ^ piece_key(s, barrel_of(p)) ^ piece_key(s, Cell::Empty);
        match p {
            Player::White => BitBoard {
                white_barrels: self.white_barrels & !b,
                occupied: self.occupied & !b,
                hash,
                ..*self
            },
            Player::Black => BitBoard {
                black_barrels: self.black_barrels & !b,
                occupied: self.occupied & !b,
                hash,
                ..*self
            },
        }
    }

    /// One barrel fewer in hand.
    pub open spec fn from_hand(&self) -> BitBoard {
        let p = self.current_player;
        let n = self@.off(p);
        let hash = self.hash ^ off_board_key(player_index(p), n) ^ off_board_key(player_index(p), n - 1);
        match p {
            Player::White => BitBoard { white_barrels_off_board: (n - 1) as u8, hash, ..*self },
            Player::Black => BitBoard { black_barrels_off_board: (n - 1) as u8, hash, ..*self },
        }
    }

    /// A barrel of the side to move comes to `to`.
    pub open spec fn arrived(&self, to: int) -> BitBoard {
        let p = self.current_player;
        if row_of(to) == goal_row_of(p) {
            match p {
                Player::White => BitBoard { white_scored: (self.white_scored + 1) as u8, ..*self },
                Player::Black => BitBoard { black_scored: (self.black_scored + 1) as u8, ..*self },
            }
        } else {
            self.with_barrel(to)
        }
    }

    pub open spec fn passed(&self, clock: int) -> BitBoard {
        BitBoard {
            current_player: self.current_player.opponent(),
            awaiting_barrel: false,
            move_count: (self.move_count + 1) as u32,
            halfmove_clock: clock as u16,
            hash: self.hash ^ side_key(),
            ..*self
        }
    }

    /// The board after the barrel part of a move.
    pub open spec fn played_barrel(&self, mv: BitMove) -> BitBoard {
        let to = mv.to_sq();
        if mv.places_barrel() {
            self.from_hand().arrived(to).passed(0)
        } else {
            self.without_barrel(mv.from_code()).arrived(to).passed(
                if row_of(to) == goal_row_of(self.current_player) {
                    0
                } else {
                    self.halfmove_clock + 1
                },
            )
        }
    }

    /// The board after a move, legal or not: the pail part first, then the
    /// barrel part unless the move is a pail sub-move.
    #[verifier::opaque]
    pub open spec fn played(&self, mv: BitMove) -> BitBoard {
        let b = if mv.pail_code() == 63 {
            *self
        } else {
            self.with_pail(mv.pail_code())
        };
        if mv.pail_only() {
            b
        } else {
            b.played_barrel(mv)
        }
    }

    /// The move names squares of the board and no counter runs over.
    pub open spec fn playable(&self, mv: BitMove) -> bool {
        let p = self.current_player;
        &&& mv.pail_code() != 63 ==> mv.pail_code() < 36 && !self@.pail_placed(p)
        &&& !mv.pail_only() ==> {
            &&& mv.to_sq() < 36
            &&& mv.places_barrel() ==> 1 <= self@.off(p) <= 4
            &&& !mv.places_barrel() ==> mv.from_code() < 36
            &&& row_of(mv.to_sq()) == goal_row_of(p) ==> self@.scored(p) < 255
            &&& self.move_count < u32::MAX
            &&& !mv.places_barrel() && row_of(mv.to_sq()) != goal_row_of(p) && mv.pail_code() == 63
                ==> self.halfmove_clock < u16::MAX
        }
    }

    /// Saves what `restore_undo` puts back.
    pub fn save_undo(&self) -> (r: UndoInfo)
        ensures
            r.saved() == *self,
    {
        UndoInfo {
            white_barrels: self.white_barrels,
            black_barrels: self.black_barrels,
            white_pail: self.white_pail,
            black_pail: self.black_pail,
            occupied: self.occupied,
            current_player: self.current_player,
            awaiting_barrel: self.awaiting_barrel,
            move_count: self.move_count,
            halfmove_clock: self.halfmove_clock,
            hash: self.hash,
            white_pail_placed: self.white_pail_placed,
            black_pail_placed: self.black_pail_placed,
            white_barrels_off_board: self.white_barrels_off_board,
            black_barrels_off_board: self.black_barrels_off_board,
            white_scored: self.white_scored,
            black_scored: self.black_scored,
        }
    }

    /// Puts back everything that was saved.
    pub fn restore_undo(&mut self, undo: &UndoInfo)
        ensures
            *final(self) == undo.saved(),
    {
        self.white_barrels = undo.white_barrels;
        self.black_barrels = undo.black_barrels;
        self.white_pail = undo.white_pail;
        self.black_pail = undo.black_pail;
        self.occupied = undo.occupied;
        self.current_player = undo.current_player;
        self.awaiting_barrel = undo.awaiting_barrel;
        self.move_count = undo.move_count;
        self.halfmove_clock = undo.halfmove_clock;
        self.hash = undo.hash;
        self.white_pail_placed = undo.white_pail_placed;
        self.black_pail_placed = undo.black_pail_placed;
        self.white_barrels_off_board = undo.white_barrels_off_board;
        self.black_barrels_off_board = undo.black_barrels_off_board;
        self.white_scored = undo.white_scored;
        self.black_scored = undo.black_scored;
    }

    fn put_pail(&mut self, pail_sq: usize)
        requires
            pail_sq < 36,
        ensures
            *final(self) == old(self).with_pail(pail_sq as int),
    {
        let b: u64 = bit(pail_sq);
        self.hash = self.hash ^ key_of(pail_sq, Cell::Empty);
        match self.current_player {
            Player::White => {
                self.white_pail = b;
                self.white_pail_placed = true;
                self.hash = self.hash ^ key_of(pail_sq, Cell::WhitePail);
            },
            Player::Black => {
                self.black_pail = b;
                self.black_pail_placed = true;
                self.hash = self.hash ^ key_of(pail_sq, Cell::BlackPail);
            },
        }
        self.occupied = self.occupied | b;
        self.awaiting_barrel = true;
        self.halfmove_clock = 0;
    }

    fn take_from_hand(&mut self)
        requires
            1 <= old(self)@.off(old(self).current_player) <= 4,
        ensures
            *final(self) == old(self).from_hand(),
    {
        match self.current_player {
            Player::White => {
                let n: u8 = self.white_barrels_off_board;
                self.hash = self.hash ^ zobrist_off_board_key(0, n as usize);
                self.hash = self.hash ^ zobrist_off_board_key(0, n as usize - 1);
                self.white_barrels_off_board = n - 1;
            },
            Player::Black => {
                let n: u8 = self.black_barrels_off_board;
                self.hash = self.hash ^ zobrist_off_board_key(1, n as usize);
                self.hash = self.hash ^ zobrist_off_board_key(1, n as usize - 1);
                self.black_barrels_off_board = n - 1;
            },
        }
    }

    fn lift_barrel(&mut self, from_sq: usize)
        requires
            from_sq < 36,
        ensures
            *final(self) == old(self).without_barrel(from_sq as int),
    {
        let b: u64 = bit(from_sq);
        match self.current_player {
            Player::White => {
                self.white_barrels = self.white_barrels & !b;
                self.hash = self.hash ^ key_of(from_sq, Cell::WhiteBarrel);
            },
            Player::Black => {
                self.black_barrels = self.black_barrels & !b;
                self.hash = self.hash ^ key_of(from_sq, Cell::BlackBarrel);
            },
        }
        self.occupied = self.occupied & !b;
        self.hash = self.hash ^ key_of(from_sq, Cell::Empty);
    }

    fn land_barrel(&mut self, to_sq: usize)
        requires
            to_sq < 36,
            row_of(to_sq as int) == goal_row_of(old(self).current_player) ==> old(self)@.scored(
                old(self).current_player,
            ) < 255,
        ensures
            *final(self) == old(self).arrived(to_sq as int),
    {
        let (to_row, _) = sq_to_coords(to_sq);
        let b: u64 = bit(to_sq);
        if to_row == self.goal_row(self.current_player) {
            match self.current_player {
                Player::White => {
                    self.white_scored = self.white_scored + 1;
                },
                Player::Black => {
                    self.black_scored = self.black_scored + 1;
                },
            }
        } else {
            self.hash = self.hash ^ key_of(to_sq, Cell::Empty);
            match self.current_player {
                Player::White => {
                    self.white_barrels = self.white_barrels | b;
                    self.hash = self.hash ^ key_of(to_sq, Cell::WhiteBarrel);
                },
                Player::Black => {
                    self.black_barrels = self.black_barrels | b;
                    self.hash = self.hash ^ key_of(to_sq, Cell::BlackBarrel);
                },
            }
            self.occupied = self.occupied | b;
        }
    }

    fn pass_turn(&mut self)
        requires
            old(self).move_count < u32::MAX,
        ensures
            *final(self) == old(self).passed(old(self).halfmove_clock as int),
    {
        self.hash = self.hash ^ key_of_side();
        self.current_player = self.current_player.opponent();
        self.awaiting_barrel = false;
        self.move_count = self.move_count + 1;
    }

    /// Plays a move and returns what takes it back.
    ///
    /// A pail sub-move leaves the side to move and sets `awaiting_barrel`; a
    /// barrel move ends the turn.
    pub fn make_move(&mut self, mv: &BitMove) -> (r: UndoInfo)
        requires
            old(self).playable(*mv),
        ensures
            r.saved() == *old(self),
            *final(self) == old(self).played(*mv),
            mv.valid() && mv.single() ==> final(self).hash == hash_after(old(self).hash, old(self)@, mv@),
            old(self).wf() && mv.valid() && mv.single() && old(self)@.legal(mv@) ==> final(self).wf() && final(self)@
                == old(self)@.apply(mv@) && (old(self).hash == hash_of(old(self)@) ==> final(self).hash == hash_of(
                final(self)@,
            )),
    {
        let ghost start = *self;
        let undo = self.save_undo();
        if let Some(pail_sq) = mv.pail_pos() {
            self.put_pail(pail_sq as usize);
        }
        if !mv.is_pail_placement() {
            let to_sq: u8 = mv.barrel_to();
            let (to_row, _) = sq_to_coords(to_sq as usize);
            let scores: bool = to_row == self.goal_row(self.current_player);
            if mv.is_placement() {
                self.take_from_hand();
                self.land_barrel(to_sq as usize);
                self.halfmove_clock = 0;
            } else {
                let from_sq: u8 = mv.barrel_from().unwrap();
                self.lift_barrel(from_sq as usize);
                self.land_barrel(to_sq as usize);
                self.halfmove_clock = if scores { 0 } else { self.halfmove_clock + 1 };
            }
            self.pass_turn();
        }
        proof {
            reveal(BitBoard::played);
            if mv.valid() && mv.single() && !mv.pail_only() && !mv.places_barrel() {
                assert(mv.landings().last() == mv.to_sq());
            }
            if start.wf() && mv.valid() && mv.single() && start@.legal(mv@) {
                start.lemma_played(*mv);
            }
        }
        undo
    }

    /// Takes a move back.
    pub fn unmake_move(&mut self, undo: &UndoInfo)
        ensures
            *final(self) == undo.saved(),
    {
        self.restore_undo(undo);
    }

    /// The board after a null move: the turn passes and nothing else happens.
    pub open spec fn null_played(&self) -> BitBoard {
        BitBoard {
            hash: self.hash ^ side_key(),
            current_player: self.current_player.opponent(),
            move_count: (self.move_count + 1) as u32,
            ..*self
        }
    }

    /// Passes the turn without a move, for null move pruning.
    pub fn make_null_move(&mut self)
        requires
            old(self).move_count < u32::MAX,
        ensures
            *final(self) == old(self).null_played(),
    {
        self.hash = self.hash ^ key_of_side();
        self.current_player = self.current_player.opponent();
        self.move_count = self.move_count + 1;
    }

    /// Takes a null move back.
    pub fn unmake_null_move(&mut self)
        requires
            old(self).move_count > 0,
        ensures
            *old(self) == final(self).null_played(),
            forall|b: BitBoard| b.move_count < u32::MAX && #[trigger] b.null_played() == *old(self) ==> *final(self) == b,
    {
        let ghost start = *self;
        self.hash = self.hash ^ key_of_side();
        self.current_player = self.current_player.opponent();
        self.move_count = self.move_count - 1;
        proof {
            lemma_xor_twice(start.hash, side_key());
            assert forall|b: BitBoard| b.move_count < u32::MAX && #[trigger] b.null_played() == start implies *self == b by {
                lemma_xor_twice(b.hash, side_key());
            }
        }
    }
}

impl BitBoard {
    /// A new piece on an empty square.
    proof fn lemma_with_pail(&self, s: int)
        requires
            self.inv(),
            on_board(s),
            self.cell_at(s) == Cell::Empty,
            self.pail_mask_of(self.current_player) == 0,
        ensures
            self.with_pail(s).inv(),
            self.with_pail(s)@.cells == self@.cells.update(s, pail_of(self.current_player)),
    {
        self.lemma_changed(self.with_pail(s), s, pail_of(self.current_player));
    }

    proof fn lemma_with_barrel(&self, s: int)
        requires
            self.inv(),
            on_board(s),
            self.cell_at(s) == Cell::Empty,
        ensures
            self.with_barrel(s).inv(),
            self.with_barrel(s)@.cells == self@.cells.update(s, barrel_of(self.current_player)),
    {
        self.lemma_changed(self.with_barrel(s), s, barrel_of(self.current_player));
    }

    proof fn lemma_without_barrel(&self, s: int)
        requires
            self.inv(),
            on_board(s),
            self.cell_at(s) == barrel_of(self.current_player),
        ensures
            self.without_barrel(s).inv(),
            self.without_barrel(s)@.cells == self@.cells.update(s, Cell::Empty),
    {
        self.lemma_changed(self.without_barrel(s), s, Cell::Empty);
    }

    /// A board whose masks differ from those of a sound board at one square
    /// only, where they hold the content `c`, is sound.
    proof fn lemma_changed(&self, b: BitBoard, s: int, c: Cell)
        requires
            self.inv(),
            on_board(s),
            c == Cell::Empty || self.cell_at(s) == Cell::Empty,
            ({
                let p = self.current_player;
                ||| b == self.with_pail(s) && c == pail_of(p) && self.pail_mask_of(p) == 0
                ||| b == self.with_barrel(s) && c == barrel_of(p)
                ||| b == self.without_barrel(s) && c == Cell::Empty && self.cell_at(s) == barrel_of(p)
            }),
        ensures
            b.inv(),
            b@.cells == self@.cells.update(s, c),
    {
        broadcast use group_has;

        let m = 1u64 << (s as u64);
        assert forall|t: int| 0 <= t < 64 implies {
            &&& on(b.white_barrels, t) == (if t == s { c == Cell::WhiteBarrel } else { on(self.white_barrels, t) })
            &&& on(b.black_barrels, t) == (if t == s { c == Cell::BlackBarrel } else { on(self.black_barrels, t) })
            &&& on(b.white_pail, t) == (if t == s { c == Cell::WhitePail } else { on(self.white_pail, t) })
            &&& on(b.black_pail, t) == (if t == s { c == Cell::BlackPail } else { on(self.black_pail, t) })
            &&& #[trigger] on(b.occupied, t) == (if t == s { c != Cell::Empty } else { on(self.occupied, t) })
        } by {
            self.lemma_square(t);
            assert(on(m, t) == (t == s));
        }
        assert forall|t: int| 0 <= t < 64 implies {
            &&& on(b.occupied, t) == on(b.white_barrels | b.black_barrels | b.white_pail | b.black_pail, t)
            &&& on(b.occupied & !ALL_SQUARES, t) == on(0u64, t)
            &&& on(b.white_barrels & b.black_barrels, t) == on(0u64, t)
            &&& on((b.white_barrels | b.black_barrels) & (b.white_pail | b.black_pail), t) == on(0u64, t)
            &&& on(b.white_pail & b.black_pail, t) == on(0u64, t)
        } by {
            self.lemma_square(t);
            lemma_masks(t);
            assert(on(b.occupied, t) == (if t == s { c != Cell::Empty } else { on(self.occupied, t) }));
        }
        lemma_mask_ext(b.occupied, b.white_barrels | b.black_barrels | b.white_pail | b.black_pail);
        lemma_mask_ext(b.occupied & !ALL_SQUARES, 0);
        lemma_mask_ext(b.white_barrels & b.black_barrels, 0);
        lemma_mask_ext((b.white_barrels | b.black_barrels) & (b.white_pail | b.black_pail), 0);
        lemma_mask_ext(b.white_pail & b.black_pail, 0);
        assert forall|t: int| 0 <= t < 36 implies b.cell_at(t) == self@.cells.update(s, c)[t] by {
            self.lemma_square(t);
            assert(on(b.occupied, t) == (if t == s { c != Cell::Empty } else { on(self.occupied, t) }));
        }
        assert(b@.cells =~= self@.cells.update(s, c));
    }
}

/// Changing one cell changes the combined keys by that cell's two keys.
proof fn lemma_cells_hash_update(cells: Seq<Cell>, s: int, c: Cell, n: nat)
    requires
        0 <= s < cells.len(),
        n <= cells.len(),
    ensures
        cells_hash(cells.update(s, c), n) == (if s < n {
            cells_hash(cells, n) ^ piece_key(s, cells[s]) ^ piece_key(s, c)
        } else {
            cells_hash(cells, n)
        }),
    decreases n,
{
    if n > 0 {
        lemma_cells_hash_update(cells, s, c, (n - 1) as nat);
        let h = cells_hash(cells, (n - 1) as nat);
        let a = piece_key(s, cells[s]);
        let b = piece_key(s, c);
        let k = piece_key(n - 1, cells[n - 1]);
        assert((h ^ a ^ b) ^ k == (h ^ k) ^ a ^ b) by (bit_vector);
        assert(h ^ b == (h ^ a) ^ a ^ b) by (bit_vector);
    }
}

/// How `h` differs from the hash of the position.
pub open spec fn drift(h: u64, s: GameState) -> u64 {
    h ^ hash_of(s)
}

proof fn lemma_drift_cell(h: u64, s: GameState, at: int, c: Cell)
    requires
        s.cells.len() == 36,
        0 <= at < 36,
    ensures
        drift(h ^ piece_key(at, s.cells[at]) ^ piece_key(at, c), s.with_cell(at, c)) == drift(h, s),
{
    lemma_cells_hash_update(s.cells, at, c, 36);
    let base = cells_hash(s.cells, 36);
    let side = if s.player == Player::Black { side_key() } else { 0 };
    let w = off_board_key(0, s.white_off);
    let b = off_board_key(1, s.black_off);
    let k1 = piece_key(at, s.cells[at]);
    let k2 = piece_key(at, c);
    assert((h ^ k1 ^ k2) ^ ((base ^ k1 ^ k2) ^ side ^ w ^ b) == h ^ (base ^ side ^ w ^ b)) by (bit_vector);
}

proof fn lemma_drift_hand(h: u64, s: GameState)
    ensures
        drift(
            h ^ off_board_key(player_index(s.player), s.off(s.player)) ^ off_board_key(
                player_index(s.player),
                s.off(s.player) - 1,
            ),
            s.with_off(s.player, s.off(s.player) - 1),
        ) == drift(h, s),
{
    let base = cells_hash(s.cells, 36);
    let side = if s.player == Player::Black { side_key() } else { 0 };
    let w = off_board_key(0, s.white_off);
    let b = off_board_key(1, s.black_off);
    let k = off_board_key(player_index(s.player), s.off(s.player) - 1);
    assert((h ^ w ^ k) ^ (base ^ side ^ k ^ b) == h ^ (base ^ side ^ w ^ b)) by (bit_vector);
    assert((h ^ b ^ k) ^ (base ^ side ^ w ^ k) == h ^ (base ^ side ^ w ^ b)) by (bit_vector);
}

proof fn lemma_drift_pass(h: u64, s: GameState, clock: int)
    ensures
        drift(h ^ side_key(), s.end_turn(clock)) == drift(h, s),
{
    let base = cells_hash(s.cells, 36);
    let w = off_board_key(0, s.white_off);
    let b = off_board_key(1, s.black_off);
    let k = side_key();
    assert((h ^ k) ^ (base ^ k ^ w ^ b) == h ^ (base ^ 0 ^ w ^ b)) by (bit_vector);
    assert((h ^ k) ^ (base ^ 0 ^ w ^ b) == h ^ (base ^ k ^ w ^ b)) by (bit_vector);
}

impl BitBoard {
    proof fn lemma_arrived(&self, to: int)
        requires
            self.inv(),
            on_board(to),
            self.cell_at(to) == Cell::Empty,
            self@.scored(self.current_player) < 255,
        ensures
            self.arrived(to).inv(),
            self.arrived(to)@ == self@.arrive(to),
            drift(self.arrived(to).hash, self.arrived(to)@) == drift(self.hash, self@),
    {
        let r = self.arrived(to);
        if row_of(to) == goal_row_of(self.current_player) {
            assert(r@.cells =~= self@.cells);
        } else {
            self.lemma_with_barrel(to);
            lemma_drift_cell(self.hash, self@, to, barrel_of(self.current_player));
        }
        assert(r@ == self@.arrive(to));
    }

    /// The masks of `r` are sound and stand for the position after `a`, and the
    /// hash has moved with the position.
    pub open spec fn follows(&self, r: BitBoard, a: Action) -> bool {
        &&& r.inv()
        &&& r@ == self@.apply(a)
        &&& drift(r.hash, r@) == drift(self.hash, self@)
    }

    /// No barrel stands on its goal row.
    pub open spec fn rows_ok(&self) -> bool {
        &&& forall|s: int| #[trigger] on(self.white_barrels, s) ==> row_of(s) != goal_row_of(Player::White)
        &&& forall|s: int| #[trigger] on(self.black_barrels, s) ==> row_of(s) != goal_row_of(Player::Black)
    }

    proof fn lemma_played_pail(&self, at: int)
        requires
            self.wf(),
            self@.legal(Action::Pail { at }),
        ensures
            self.follows(self.with_pail(at), Action::Pail { at }),
            self.with_pail(at).rows_ok(),
            at_most_one(self.with_pail(at).pail_mask_of(self.current_player)),
            self.with_pail(at).pail_mask_of(self.current_player) != 0,
    {
        let p = self.current_player;
        assert(self.cell_at(at) == self@.cells[at]);
        self.lemma_with_pail(at);
        lemma_drift_cell(self.hash, self@, at, pail_of(p));
        assert(at_most_one(1u64 << (at as u64)));
        lemma_bit_nonzero(at);
    }

    pub proof fn lemma_played_place(&self, to: int)
        requires
            self.inv(),
            self.rows_ok(),
            self@.legal(Action::Place { to }),
            1 <= self@.off(self.current_player) <= 4,
            self@.scored(self.current_player) < 255,
            self.move_count < u32::MAX,
        ensures
            self.follows(self.from_hand().arrived(to).passed(0), Action::Place { to }),
            self.from_hand().arrived(to).rows_ok(),
    {
        let p = self.current_player;
        let b1 = self.from_hand();
        assert(b1@.cells =~= self@.cells);
        assert(b1@ == self@.with_off(p, self@.off(p) - 1));
        lemma_drift_hand(self.hash, self@);
        assert(b1.cell_at(to) == self@.cells[to]);
        b1.lemma_arrived(to);
        let b2 = b1.arrived(to);
        let r = b2.passed(0);
        assert(r@.cells =~= b2@.cells);
        lemma_drift_pass(b2.hash, b2@, 0);
        assert(r@ == b2@.end_turn(0));
        self.lemma_rows_after(b1, b2, to);
    }

    pub proof fn lemma_played_walk(&self, from: int, path: Seq<int>)
        requires
            self.inv(),
            self.rows_ok(),
            self@.legal(Action::Walk { from, path }),
            self@.scored(self.current_player) < 255,
            self.move_count < u32::MAX,
            row_of(path.last()) != goal_row_of(self.current_player) ==> self.halfmove_clock < u16::MAX,
        ensures
            ({
                let to = path.last();
                let clock = if row_of(to) == goal_row_of(self.current_player) { 0 } else { self.halfmove_clock + 1 };
                &&& self.follows(self.without_barrel(from).arrived(to).passed(clock), Action::Walk { from, path })
                &&& self.without_barrel(from).arrived(to).rows_ok()
            }),
    {
        let p = self.current_player;
        let to = path.last();
        assert(on_board(to) && self@.cells[to] == Cell::Empty) by {
            if path.len() >= 1 && jump_chain(self@.cells, p, from, path) {
                lemma_chain_squares(self@.cells, p, from, path, path.len() - 1);
            }
        }
        let b1 = self.without_barrel(from);
        assert(self.cell_at(from) == self@.cells[from]);
        self.lemma_without_barrel(from);
        assert(b1@ == self@.with_cell(from, Cell::Empty));
        lemma_drift_cell(self.hash, self@, from, Cell::Empty);
        assert(b1.cell_at(to) == b1@.cells[to]);
        b1.lemma_arrived(to);
        let b2 = b1.arrived(to);
        let clock = if row_of(to) == goal_row_of(p) { 0 } else { self.halfmove_clock + 1 };
        let r = b2.passed(clock);
        assert(r@.cells =~= b2@.cells);
        lemma_drift_pass(b2.hash, b2@, clock);
        assert(r@ == b2@.end_turn(clock));
        assert forall|s: int| #[trigger] on(b1.white_barrels, s) implies on(self.white_barrels, s) by {
            broadcast use group_has;

        }
        assert forall|s: int| #[trigger] on(b1.black_barrels, s) implies on(self.black_barrels, s) by {
            broadcast use group_has;

        }
        self.lemma_rows_after(b1, b2, to);
    }

    /// The board after an action.
    #[verifier::opaque]
    pub open spec fn acted(&self, a: Action) -> BitBoard {
        match a {
            Action::Pail { at } => self.with_pail(at),
            Action::Place { to } => self.from_hand().arrived(to).passed(0),
            Action::Walk { from, path } => self.without_barrel(from).arrived(path.last()).passed(
                if row_of(path.last()) == goal_row_of(self.current_player) {
                    0
                } else {
                    self.halfmove_clock + 1
                },
            ),
        }
    }

    /// A move does what its action does.
    pub proof fn lemma_played_is_acted(&self, mv: BitMove)
        requires
            mv.valid(),
            mv.single(),
        ensures
            self.played(mv) == self.acted(mv@),
    {
        reveal(BitBoard::played);
        reveal(BitBoard::acted);
        if !mv.pail_only() && !mv.places_barrel() {
            assert(mv.landings().last() == mv.to_sq());
        }
    }

    /// A legal action keeps the position sound and does on the masks what the
    /// rules say.
    #[verifier::spinoff_prover]
    pub proof fn lemma_acted(&self, a: Action)
        requires
            self.wf(),
            self@.legal(a),
            self.move_count < u32::MAX,
            self.halfmove_clock < u16::MAX,
        ensures
            self.acted(a).wf(),
            self.acted(a)@ == self@.apply(a),
            self.shows_pails() ==> self.acted(a).shows_pails(),
            self.hash == hash_of(self@) ==> self.acted(a).hash == hash_of(self.acted(a)@),
    {
        reveal(BitBoard::acted);
        let r = self.acted(a);
        law_barrels_conserved(self@, a, Player::White);
        law_barrels_conserved(self@, a, Player::Black);
        lemma_barrel_total_bound(self@, self.current_player);
        match a {
            Action::Pail { at } => {
                self.lemma_played_pail(at);
            },
            Action::Place { to } => {
                self.lemma_played_place(to);
            },
            Action::Walk { from, path } => {
                self.lemma_played_walk(from, path);
            },
        }
        assert(self.follows(r, a));
        if self.hash == hash_of(self@) {
            let x = hash_of(r@);
            let y = r.hash;
            let z = self.hash;
            lemma_cancel(y, x, z);
        }
    }

    /// A legal move does on the masks what the rules say, keeps the position
    /// sound, and keeps the hash the hash of the position.
    #[verifier::spinoff_prover]
    pub proof fn lemma_played(&self, mv: BitMove)
        requires
            self.wf(),
            mv.valid(),
            mv.single(),
            self@.legal(mv@),
            self.playable(mv),
        ensures
            self.played(mv).wf(),
            self.played(mv)@ == self@.apply(mv@),
            self.shows_pails() ==> self.played(mv).shows_pails(),
            self.hash == hash_of(self@) ==> self.played(mv).hash == hash_of(self.played(mv)@),
    {
        reveal(BitBoard::played);
        let r = self.played(mv);
        law_barrels_conserved(self@, mv@, Player::White);
        law_barrels_conserved(self@, mv@, Player::Black);
        lemma_barrel_total_bound(self@, self.current_player);
        if mv.pail_only() {
            self.lemma_played_pail(mv.pail_code());
        } else if mv.places_barrel() {
            self.lemma_played_place(mv.to_sq());
        } else {
            assert(mv.landings().last() == mv.to_sq());
            self.lemma_played_walk(mv.from_code(), mv.landings());
        }
        assert(self.follows(r, mv@));
        if self.hash == hash_of(self@) {
            let x = hash_of(r@);
            let y = r.hash;
            let z = self.hash;
            lemma_cancel(y, x, z);
        }
    }

    /// Barrels stay off their goal rows.
    proof fn lemma_rows_after(&self, b1: BitBoard, b2: BitBoard, to: int)
        requires
            self.inv(),
            self.rows_ok(),
            on_board(to),
            b1.current_player == self.current_player,
            forall|s: int| #[trigger] on(b1.white_barrels, s) ==> on(self.white_barrels, s),
            forall|s: int| #[trigger] on(b1.black_barrels, s) ==> on(self.black_barrels, s),
            b2 == b1.arrived(to),
        ensures
            forall|s: int| #[trigger] on(b2.white_barrels, s) ==> row_of(s) != goal_row_of(Player::White),
            forall|s: int| #[trigger] on(b2.black_barrels, s) ==> row_of(s) != goal_row_of(Player::Black),
    {
        broadcast use group_has;

        assert forall|s: int| #[trigger] on(b2.white_barrels, s) implies row_of(s) != goal_row_of(Player::White) by {
            assert(on(1u64 << (to as u64), s) == (s == to));
            assert(on(b1.white_barrels, s) ==> on(self.white_barrels, s));
        }
        assert forall|s: int| #[trigger] on(b2.black_barrels, s) implies row_of(s) != goal_row_of(Player::Black) by {
            assert(on(1u64 << (to as u64), s) == (s == to));
            assert(on(b1.black_barrels, s) ==> on(self.black_barrels, s));
        }
    }
}

/// With four barrels in all, a side has scored at most four.
proof fn lemma_barrel_total_bound(s: GameState, p: Player)
    requires
        barrel_total(s, p) == 4,
        s.off(p) >= 0,
    ensures
        s.scored(p) <= 4,
{
}

proof fn lemma_bit_nonzero(s: int)
    requires
        0 <= s < 64,
    ensures
        1u64 << (s as u64) != 0,
{
    broadcast use group_has;

    assert(on(1u64 << (s as u64), s));
    assert(!on(0u64, s));
}

proof fn lemma_xor_twice(a: u64, b: u64)
    ensures
        (a ^ b) ^ b == a,
{
    assert((a ^ b) ^ b == a) by (bit_vector);
}

/// Taking a move back gives the position before it: `undo` is what playing the
/// move returned, and `back` what is left when it is taken back.
pub proof fn law_unmake_undoes(before: BitBoard, undo: UndoInfo, back: BitBoard)
    requires
        undo.saved() == before,
        back == undo.saved(),
    ensures
        back == before,
{
}

proof fn lemma_cancel(y: u64, x: u64, z: u64)
    by (bit_vector)
    ensures
        y ^ x == z ^ z ==> y == x,
{
}

} // verus!
