//! Telling game positions from other boards.
use vstd::prelude::*;
use vstd::std_specs::bits::u64_trailing_zeros;
use crate::bitboard::BitBoard;
use crate::bits::{count_ones, group_has, lemma_empty, lemma_lowest, lowest, on};
use crate::board::Player;
use crate::phase::lemma_barrels_popcount;
use crate::play::at_most_one;
use crate::squares::{bit, lemma_masks, on_board, row_of, ALL_SQUARES, ROW_MASK};

verus! {

/// The mask holds at most one square of the board.
fn is_at_most_one(m: u64) -> (r: bool)
    requires
        forall|s: int| #[trigger] on(m, s) ==> on_board(s),
    ensures
        r == at_most_one(m),
{
    broadcast use group_has;

    if m == 0 {
        return true;
    }
    let s: usize = lowest(m);
    proof {
        lemma_lowest(m);
        assert(on(m, s as int));
    }
    let r: bool = m == bit(s);
    proof {
        if r {
            let t = s as u64;
            assert(m == 1u64 << t);
        }
        if at_most_one(m) {
            let t = choose|t: u64| t < 36 && m == #[trigger] (1u64 << t);
            assert(on(1u64 << t, s as int) == (s == t));
        }
    }
    r
}

/// No square of the mask lies on the row.
fn avoids_row(m: u64, row: usize) -> (r: bool)
    requires
        row < 6,
        forall|s: int| #[trigger] on(m, s) ==> on_board(s),
    ensures
        r == forall|s: int| #[trigger] on(m, s) ==> row_of(s) != row,
{
    broadcast use group_has;

    let hit: u64 = m & ROW_MASK[row];
    proof {
        lemma_empty(hit);
        assert forall|s: int| #[trigger] on(hit, s) == (on(m, s) && row_of(s) == row) by {
            lemma_masks(s);
            assert(on(ROW_MASK@[row as int], s) == (on_board(s) && row_of(s) == row));
        }
        if hit != 0 {
            lemma_lowest(hit);
            let s = u64_trailing_zeros(hit) as int;
            assert(on(hit, s));
            assert(on(m, s) && row_of(s) == row);
        } else {
            assert forall|s: int| #[trigger] on(m, s) implies row_of(s) != row by {
                assert(!on(hit, s));
            }
        }
    }
    hit == 0
}

impl BitBoard {
    /// The game can be in this position: each side's four barrels are on the
    /// board, in hand or home, none stands on its goal row, and a pail on the
    /// board has been placed.
    pub fn is_game_position(&self) -> (r: bool)
        ensures
            r == self.wf(),
    {
        let sound: bool = self.occupied == (self.white_barrels | self.black_barrels | self.white_pail
            | self.black_pail) && self.occupied & !ALL_SQUARES == 0 && self.white_barrels & self.black_barrels == 0
            && (self.white_barrels | self.black_barrels) & (self.white_pail | self.black_pail) == 0
            && self.white_pail & self.black_pail == 0;
        if !sound {
            return false;
        }
        proof {
            assert forall|s: int| on(self.white_barrels, s) || on(self.black_barrels, s) || on(self.white_pail, s) || on(
                self.black_pail,
                s,
            ) implies on_board(s) by {
                self.lemma_square(s);
            }
            lemma_barrels_popcount(*self, Player::White);
            lemma_barrels_popcount(*self, Player::Black);
        }
        let white: u32 = count_ones(self.white_barrels) + self.white_barrels_off_board as u32 + self.white_scored as u32;
        let black: u32 = count_ones(self.black_barrels) + self.black_barrels_off_board as u32 + self.black_scored as u32;
        let placed: bool = match self.current_player {
            Player::White => self.white_pail_placed,
            Player::Black => self.black_pail_placed,
        };
        (self.white_pail == 0 || self.white_pail_placed) && (self.black_pail == 0 || self.black_pail_placed)
            && is_at_most_one(self.white_pail) && is_at_most_one(self.black_pail) && white == 4 && black == 4
            && avoids_row(self.white_barrels, 0) && avoids_row(self.black_barrels, 5) && (!self.awaiting_barrel || placed)
    }
}

} // verus!
