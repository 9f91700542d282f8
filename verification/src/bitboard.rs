//! The board as four masks of squares, with move making for the search.
use vstd::prelude::*;
use crate::bits::{group_has, lemma_empty, lemma_lowest, on};
use crate::board::{Cell, Player};
use crate::rules::{barrel_of, goal_row_of, pail_of, start_row, GameState};
use crate::squares::{lemma_masks, on_board, row_of, ALL_SQUARES, BARRELS_PER_PLAYER, BOARD_SIZE, ROW_MASK};

verus! {

/// A position as masks. `occupied` is the union of the four piece masks.
#[derive(Clone, Copy, PartialEq, Eq, Debug, Structural)]
pub struct BitBoard {
    pub white_barrels: u64,
    pub black_barrels: u64,
    pub white_pail: u64,
    pub black_pail: u64,
    pub occupied: u64,
    pub current_player: Player,
    /// The side to move has placed its pail this turn and owes a barrel move.
    pub awaiting_barrel: bool,
    /// Completed turns.
    pub move_count: u32,
    /// Barrel moves since the last placement, pail or score.
    pub halfmove_clock: u16,
    pub hash: u64,
    pub white_pail_placed: bool,
    pub black_pail_placed: bool,
    pub white_barrels_off_board: u8,
    pub black_barrels_off_board: u8,
    pub white_scored: u8,
    pub black_scored: u8,
}

impl BitBoard {
    /// The content of square `s`.
    pub open spec fn cell_at(&self, s: int) -> Cell {
        if on(self.white_barrels, s) {
            Cell::WhiteBarrel
        } else if on(self.black_barrels, s) {
            Cell::BlackBarrel
        } else if on(self.white_pail, s) {
            Cell::WhitePail
        } else if on(self.black_pail, s) {
            Cell::BlackPail
        } else {
            Cell::Empty
        }
    }

    /// The masks hold squares of the board, no two pieces share a square, and
    /// `occupied` is their union.
    pub open spec fn inv(&self) -> bool {
        &&& self.occupied == (self.white_barrels | self.black_barrels | self.white_pail | self.black_pail)
        &&& self.occupied & !ALL_SQUARES == 0
        &&& self.white_barrels & self.black_barrels == 0
        &&& (self.white_barrels | self.black_barrels) & (self.white_pail | self.black_pail) == 0
        &&& self.white_pail & self.black_pail == 0
    }

    pub open spec fn view(&self) -> GameState {
        GameState {
            cells: Seq::new(36, |s: int| self.cell_at(s)),
            player: self.current_player,
            awaiting_barrel: self.awaiting_barrel,
            white_pail_placed: self.white_pail_placed,
            black_pail_placed: self.black_pail_placed,
            white_off: self.white_barrels_off_board as int,
            black_off: self.black_barrels_off_board as int,
            white_scored: self.white_scored as int,
            black_scored: self.black_scored as int,
            move_count: self.move_count as int,
            clock: self.halfmove_clock as int,
        }
    }

    pub open spec fn barrels_of(&self, p: Player) -> u64 {
        match p {
            Player::White => self.white_barrels,
            Player::Black => self.black_barrels,
        }
    }

    pub open spec fn pail_mask_of(&self, p: Player) -> u64 {
        match p {
            Player::White => self.white_pail,
            Player::Black => self.black_pail,
        }
    }

    /// What the masks say of one square.
    pub proof fn lemma_square(&self, s: int)
        requires
            self.inv(),
        ensures
            on(self.white_barrels, s) == (self.cell_at(s) == Cell::WhiteBarrel),
            on(self.black_barrels, s) == (self.cell_at(s) == Cell::BlackBarrel),
            on(self.white_pail, s) == (self.cell_at(s) == Cell::WhitePail),
            on(self.black_pail, s) == (self.cell_at(s) == Cell::BlackPail),
            on(self.occupied, s) == (self.cell_at(s) != Cell::Empty),
            on(self.occupied, s) ==> on_board(s),
            forall|p: Player| #[trigger] on(self.barrels_of(p), s) == (self.cell_at(s) == barrel_of(p)),
            forall|p: Player| #[trigger] on(self.pail_mask_of(p), s) == (self.cell_at(s) == pail_of(p)),
    {
        broadcast use group_has;

        lemma_masks(s);
        assert(on(self.occupied & !ALL_SQUARES, s) == on(0u64, s));
        assert(on(self.white_barrels & self.black_barrels, s) == on(0u64, s));
        assert(on((self.white_barrels | self.black_barrels) & (self.white_pail | self.black_pail), s) == on(0u64, s));
        assert(on(self.white_pail & self.black_pail, s) == on(0u64, s));
        assert(on(self.occupied, s) == on(
            self.white_barrels | self.black_barrels | self.white_pail | self.black_pail,
            s,
        ));
    }

    /// Squares without a piece.
    pub fn empty(&self) -> (r: u64)
        ensures
            forall|s: int| #[trigger] on(r, s) == (on_board(s) && !on(self.occupied, s)),
            self.inv() ==> forall|s: int| #[trigger] on(r, s) == (on_board(s) && self.cell_at(s) == Cell::Empty),
    {
        broadcast use group_has;

        let r: u64 = !self.occupied & ALL_SQUARES;
        proof {
            assert forall|s: int| #[trigger] on(r, s) == (on_board(s) && !on(self.occupied, s)) by {
                lemma_masks(s);
            }
            if self.inv() {
                assert forall|s: int| #[trigger] on(r, s) == (on_board(s) && self.cell_at(s) == Cell::Empty) by {
                    self.lemma_square(s);
                }
            }
        }
        r
    }

    /// Barrels of both sides.
    pub fn all_barrels(&self) -> (r: u64)
        ensures
            forall|s: int| #[trigger] on(r, s) == (on(self.white_barrels, s) || on(self.black_barrels, s)),
    {
        broadcast use group_has;

        self.white_barrels | self.black_barrels
    }

    pub(crate) fn barrels(&self, player: Player) -> (r: u64)
        ensures
            r == self.barrels_of(player),
    {
        match player {
            Player::White => self.white_barrels,
            Player::Black => self.black_barrels,
        }
    }

    pub(crate) fn pail(&self, player: Player) -> (r: u64)
        ensures
            r == self.pail_mask_of(player),
    {
        match player {
            Player::White => self.white_pail,
            Player::Black => self.black_pail,
        }
    }

    pub(crate) fn off_board(&self, player: Player) -> (r: u8)
        ensures
            r == self@.off(player),
    {
        match player {
            Player::White => self.white_barrels_off_board,
            Player::Black => self.black_barrels_off_board,
        }
    }

    pub(crate) fn scored(&self, player: Player) -> (r: u8)
        ensures
            r == self@.scored(player),
    {
        match player {
            Player::White => self.white_scored,
            Player::Black => self.black_scored,
        }
    }

    pub(crate) fn pail_placed(&self, player: Player) -> (r: bool)
        ensures
            r == self@.pail_placed(player),
    {
        match player {
            Player::White => self.white_pail_placed,
            Player::Black => self.black_pail_placed,
        }
    }

    /// The row on which a side places its barrels, as a mask.
    pub fn starting_row_mask(&self, player: Player) -> (r: u64)
        ensures
            forall|s: int| #[trigger] on(r, s) == (on_board(s) && row_of(s) == start_row(player)),
    {
        let r: u64 = match player {
            Player::White => ROW_MASK[BOARD_SIZE - 1],
            Player::Black => ROW_MASK[0],
        };
        proof {
            assert(r == ROW_MASK@[start_row(player)]);
            assert forall|s: int| #[trigger] on(r, s) == (on_board(s) && row_of(s) == start_row(player)) by {
                lemma_masks(s);
            }
        }
        r
    }

    /// The row on which a side scores.
    pub fn goal_row(&self, player: Player) -> (r: usize)
        ensures
            r == goal_row_of(player),
    {
        match player {
            Player::White => 0,
            Player::Black => BOARD_SIZE - 1,
        }
    }

    /// The side with all four barrels home, if any; white is asked first.
    pub fn check_winner(&self) -> (r: Option<Player>)
        ensures
            r == self@.winner(),
    {
        if self.white_scored == BARRELS_PER_PLAYER as u8 {
            Some(Player::White)
        } else if self.black_scored == BARRELS_PER_PLAYER as u8 {
            Some(Player::Black)
        } else {
            None
        }
    }

    /// The side to move has a barrel on its goal row or the row before it.
    pub open spec fn near_goal(&self) -> bool {
        exists|s: int|
            on(self.barrels_of(self.current_player), s) && on_board(s) && -1 <= row_of(s) - goal_row_of(
                self.current_player,
            ) <= 1
    }

    /// The side to move has a barrel on its goal row or the row before it.
    pub fn has_barrel_near_goal(&self) -> (r: bool)
        ensures
            r == self.near_goal(),
    {
        broadcast use group_has;

        let my_barrels: u64 = self.barrels(self.current_player);
        let near_goal_mask: u64 = match self.current_player {
            Player::White => ROW_MASK[0] | ROW_MASK[1],
            Player::Black => ROW_MASK[4] | ROW_MASK[5],
        };
        proof {
            let m = my_barrels & near_goal_mask;
            lemma_empty(m);
            assert forall|s: int| #[trigger] on(near_goal_mask, s) == (on_board(s) && -1 <= row_of(s) - goal_row_of(
                self.current_player,
            ) <= 1) by {
                lemma_masks(s);
            }
            if m != 0 {
                lemma_lowest(m);
                let s = vstd::std_specs::bits::u64_trailing_zeros(m) as int;
                assert(on(my_barrels, s) && on(near_goal_mask, s));
            } else {
                assert forall|s: int| on(self.barrels_of(self.current_player), s) implies !(on_board(s) && -1 <= row_of(
                    s,
                ) - goal_row_of(self.current_player) <= 1) by {
                    assert(!on(m, s));
                    assert(on(near_goal_mask, s) == (on_board(s) && -1 <= row_of(s) - goal_row_of(
                        self.current_player,
                    ) <= 1));
                }
            }
        }
        (my_barrels & near_goal_mask) != 0
    }
}

} // verus!
