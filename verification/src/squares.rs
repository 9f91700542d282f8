//! Geometry of the six by six board: coordinates, row and column masks, and
//! the neighbour and jump tables, each proved against the coordinates.
use vstd::prelude::*;
use crate::bits::on;

verus! {

pub const BOARD_SIZE: usize = 6;

pub const NUM_SQUARES: usize = BOARD_SIZE * BOARD_SIZE;

pub const BARRELS_PER_PLAYER: usize = 4;

pub const MAX_DEPTH: usize = 32;

/// Jump directions, in the order up, down, left, right, up-left, up-right,
/// down-left, down-right.
pub const NUM_JUMP_DIRS: usize = 8;

/// The thirty-six squares of the board.
pub const ALL_SQUARES: u64 = 0xfffffffff;

pub const ROW_MASK: [u64; BOARD_SIZE] = [0x3f, 0xfc0, 0x3f000, 0xfc0000, 0x3f000000, 0xfc0000000];

pub const COL_MASK: [u64; BOARD_SIZE] = [0x41041041, 0x82082082, 0x104104104, 0x208208208, 0x410410410, 0x820820820];

/// The up to eight neighbours of each square.
pub const ADJACENT: [u64; NUM_SQUARES] = [
    0xc2, 0x1c5, 0x38a, 0x714, 0xe28, 0xc10,
    0x3083, 0x7147, 0xe28e, 0x1c51c, 0x38a38, 0x30430,
    0xc20c0, 0x1c51c0, 0x38a380, 0x714700, 0xe28e00, 0xc10c00,
    0x3083000, 0x7147000, 0xe28e000, 0x1c51c000, 0x38a38000, 0x30430000,
    0xc20c0000, 0x1c51c0000, 0x38a380000, 0x714700000, 0xe28e00000, 0xc10c00000,
    0x83000000, 0x147000000, 0x28e000000, 0x51c000000, 0xa38000000, 0x430000000,
];

/// The square passed over by a jump in each direction, -1 off the board.
pub const JUMP_OVER: [[i8; NUM_JUMP_DIRS]; NUM_SQUARES] = [
    [-1, 6, -1, 1, -1, -1, -1, 7],
    [-1, 7, 0, 2, -1, -1, 6, 8],
    [-1, 8, 1, 3, -1, -1, 7, 9],
    [-1, 9, 2, 4, -1, -1, 8, 10],
    [-1, 10, 3, 5, -1, -1, 9, 11],
    [-1, 11, 4, -1, -1, -1, 10, -1],
    [0, 12, -1, 7, -1, 1, -1, 13],
    [1, 13, 6, 8, 0, 2, 12, 14],
    [2, 14, 7, 9, 1, 3, 13, 15],
    [3, 15, 8, 10, 2, 4, 14, 16],
    [4, 16, 9, 11, 3, 5, 15, 17],
    [5, 17, 10, -1, 4, -1, 16, -1],
    [6, 18, -1, 13, -1, 7, -1, 19],
    [7, 19, 12, 14, 6, 8, 18, 20],
    [8, 20, 13, 15, 7, 9, 19, 21],
    [9, 21, 14, 16, 8, 10, 20, 22],
    [10, 22, 15, 17, 9, 11, 21, 23],
    [11, 23, 16, -1, 10, -1, 22, -1],
    [12, 24, -1, 19, -1, 13, -1, 25],
    [13, 25, 18, 20, 12, 14, 24, 26],
    [14, 26, 19, 21, 13, 15, 25, 27],
    [15, 27, 20, 22, 14, 16, 26, 28],
    [16, 28, 21, 23, 15, 17, 27, 29],
    [17, 29, 22, -1, 16, -1, 28, -1],
    [18, 30, -1, 25, -1, 19, -1, 31],
    [19, 31, 24, 26, 18, 20, 30, 32],
    [20, 32, 25, 27, 19, 21, 31, 33],
    [21, 33, 26, 28, 20, 22, 32, 34],
    [22, 34, 27, 29, 21, 23, 33, 35],
    [23, 35, 28, -1, 22, -1, 34, -1],
    [24, -1, -1, 31, -1, 25, -1, -1],
    [25, -1, 30, 32, 24, 26, -1, -1],
    [26, -1, 31, 33, 25, 27, -1, -1],
    [27, -1, 32, 34, 26, 28, -1, -1],
    [28, -1, 33, 35, 27, 29, -1, -1],
    [29, -1, 34, -1, 28, -1, -1, -1],
];

/// The square reached by a jump in each direction, -1 off the board.
pub const JUMP_LANDING: [[i8; NUM_JUMP_DIRS]; NUM_SQUARES] = [
    [-1, 12, -1, 2, -1, -1, -1, 14],
    [-1, 13, -1, 3, -1, -1, -1, 15],
    [-1, 14, 0, 4, -1, -1, 12, 16],
    [-1, 15, 1, 5, -1, -1, 13, 17],
    [-1, 16, 2, -1, -1, -1, 14, -1],
    [-1, 17, 3, -1, -1, -1, 15, -1],
    [-1, 18, -1, 8, -1, -1, -1, 20],
    [-1, 19, -1, 9, -1, -1, -1, 21],
    [-1, 20, 6, 10, -1, -1, 18, 22],
    [-1, 21, 7, 11, -1, -1, 19, 23],
    [-1, 22, 8, -1, -1, -1, 20, -1],
    [-1, 23, 9, -1, -1, -1, 21, -1],
    [0, 24, -1, 14, -1, 2, -1, 26],
    [1, 25, -1, 15, -1, 3, -1, 27],
    [2, 26, 12, 16, 0, 4, 24, 28],
    [3, 27, 13, 17, 1, 5, 25, 29],
    [4, 28, 14, -1, 2, -1, 26, -1],
    [5, 29, 15, -1, 3, -1, 27, -1],
    [6, 30, -1, 20, -1, 8, -1, 32],
    [7, 31, -1, 21, -1, 9, -1, 33],
    [8, 32, 18, 22, 6, 10, 30, 34],
    [9, 33, 19, 23, 7, 11, 31, 35],
    [10, 34, 20, -1, 8, -1, 32, -1],
    [11, 35, 21, -1, 9, -1, 33, -1],
    [12, -1, -1, 26, -1, 14, -1, -1],
    [13, -1, -1, 27, -1, 15, -1, -1],
    [14, -1, 24, 28, 12, 16, -1, -1],
    [15, -1, 25, 29, 13, 17, -1, -1],
    [16, -1, 26, -1, 14, -1, -1, -1],
    [17, -1, 27, -1, 15, -1, -1, -1],
    [18, -1, -1, 32, -1, 20, -1, -1],
    [19, -1, -1, 33, -1, 21, -1, -1],
    [20, -1, 30, 34, 18, 22, -1, -1],
    [21, -1, 31, 35, 19, 23, -1, -1],
    [22, -1, 32, -1, 20, -1, -1, -1],
    [23, -1, 33, -1, 21, -1, -1, -1],
];

pub open spec fn on_board(s: int) -> bool {
    0 <= s < 36
}

pub open spec fn row_of(s: int) -> int {
    s / 6
}

pub open spec fn col_of(s: int) -> int {
    s % 6
}

/// The squares `a` and `b` touch, by an edge or a corner.
pub open spec fn adjacent(a: int, b: int) -> bool {
    &&& a != b
    &&& -1 <= row_of(a) - row_of(b) <= 1
    &&& -1 <= col_of(a) - col_of(b) <= 1
}

pub open spec fn dir_row(d: int) -> int {
    if d == 0 || d == 4 || d == 5 {
        -1
    } else if d == 1 || d == 6 || d == 7 {
        1
    } else {
        0
    }
}

pub open spec fn dir_col(d: int) -> int {
    if d == 2 || d == 4 || d == 6 {
        -1
    } else if d == 3 || d == 5 || d == 7 {
        1
    } else {
        0
    }
}

/// The square `k` steps from `s` in direction `d`, -1 when that leaves the board.
pub open spec fn ray(s: int, d: int, k: int) -> int {
    let r = row_of(s) + k * dir_row(d);
    let c = col_of(s) + k * dir_col(d);
    if 0 <= r < 6 && 0 <= c < 6 {
        6 * r + c
    } else {
        -1
    }
}

/// Every row, column and direction table holds what the coordinates say.
pub open spec fn tables_ok(s: int) -> bool {
    &&& forall|t: int| 0 <= t < 36 ==> #[trigger] on(ADJACENT@[s], t) == adjacent(s, t)
    &&& forall|d: int| 0 <= d < 8 ==> #[trigger] JUMP_OVER@[s]@[d] == ray(s, d, 1)
    &&& forall|d: int| 0 <= d < 8 ==> #[trigger] JUMP_LANDING@[s]@[d] == ray(s, d, 2)
}

/// The neighbours of `s` by shifting its bit in each direction.
spec fn king_mask(s: u64) -> u64 {
    let b = 1u64 << s;
    let l = (b & !0x041041041u64) >> 1;
    let r = (b & !0x820820820u64) << 1;
    let m = l | b | r;
    ((m << 6) | (m >> 6) | l | r) & 0xfffffffffu64
}

proof fn lemma_king_mask(s: u64, t: u64)
    by (bit_vector)
    requires
        s < 36,
        t < 36,
    ensures
        (king_mask(s) >> t) & 1u64 == 1u64 <==> (s != t && s / 6 <= t / 6 + 1 && t / 6 <= s / 6 + 1
            && s % 6 <= t % 6 + 1 && t % 6 <= s % 6 + 1),
{
}

proof fn lemma_adjacent_values()
    by (bit_vector)
    ensures
        king_mask(0) == 0xc2,
        king_mask(1) == 0x1c5,
        king_mask(2) == 0x38a,
        king_mask(3) == 0x714,
        king_mask(4) == 0xe28,
        king_mask(5) == 0xc10,
        king_mask(6) == 0x3083,
        king_mask(7) == 0x7147,
        king_mask(8) == 0xe28e,
        king_mask(9) == 0x1c51c,
        king_mask(10) == 0x38a38,
        king_mask(11) == 0x30430,
        king_mask(12) == 0xc20c0,
        king_mask(13) == 0x1c51c0,
        king_mask(14) == 0x38a380,
        king_mask(15) == 0x714700,
        king_mask(16) == 0xe28e00,
        king_mask(17) == 0xc10c00,
        king_mask(18) == 0x3083000,
        king_mask(19) == 0x7147000,
        king_mask(20) == 0xe28e000,
        king_mask(21) == 0x1c51c000,
        king_mask(22) == 0x38a38000,
        king_mask(23) == 0x30430000,
        king_mask(24) == 0xc20c0000,
        king_mask(25) == 0x1c51c0000,
        king_mask(26) == 0x38a380000,
        king_mask(27) == 0x714700000,
        king_mask(28) == 0xe28e00000,
        king_mask(29) == 0xc10c00000,
        king_mask(30) == 0x83000000,
        king_mask(31) == 0x147000000,
        king_mask(32) == 0x28e000000,
        king_mask(33) == 0x51c000000,
        king_mask(34) == 0xa38000000,
        king_mask(35) == 0x430000000,
{
}

#[verifier::rlimit(60)]
proof fn lemma_jump_rows(s: int)
    requires
        0 <= s < 36,
    ensures
        forall|d: int| 0 <= d < 8 ==> #[trigger] JUMP_OVER@[s]@[d] == ray(s, d, 1),
        forall|d: int| 0 <= d < 8 ==> #[trigger] JUMP_LANDING@[s]@[d] == ray(s, d, 2),
        ADJACENT@[s] == king_mask(s as u64),
{
    lemma_adjacent_values();
    if s == 0 {
    } else if s == 1 {
    } else if s == 2 {
    } else if s == 3 {
    } else if s == 4 {
    } else if s == 5 {
    } else if s == 6 {
    } else if s == 7 {
    } else if s == 8 {
    } else if s == 9 {
    } else if s == 10 {
    } else if s == 11 {
    } else if s == 12 {
    } else if s == 13 {
    } else if s == 14 {
    } else if s == 15 {
    } else if s == 16 {
    } else if s == 17 {
    } else if s == 18 {
    } else if s == 19 {
    } else if s == 20 {
    } else if s == 21 {
    } else if s == 22 {
    } else if s == 23 {
    } else if s == 24 {
    } else if s == 25 {
    } else if s == 26 {
    } else if s == 27 {
    } else if s == 28 {
    } else if s == 29 {
    } else if s == 30 {
    } else if s == 31 {
    } else if s == 32 {
    } else if s == 33 {
    } else if s == 34 {
    } else {
        assert(s == 35);
    }
}

pub proof fn lemma_tables(s: int)
    requires
        0 <= s < 36,
    ensures
        tables_ok(s),
{
    lemma_jump_rows(s);
    assert forall|t: int| 0 <= t < 36 implies #[trigger] on(ADJACENT@[s], t) == adjacent(s, t) by {
        lemma_king_mask(s as u64, t as u64);
    }
}

proof fn lemma_row_mask_bits(t: u64)
    by (bit_vector)
    requires
        t < 64,
    ensures
        (0x3fu64 >> t) & 1u64 == 1u64 <==> t / 6 == 0,
        (0xfc0u64 >> t) & 1u64 == 1u64 <==> t / 6 == 1,
        (0x3f000u64 >> t) & 1u64 == 1u64 <==> t / 6 == 2,
        (0xfc0000u64 >> t) & 1u64 == 1u64 <==> t / 6 == 3,
        (0x3f000000u64 >> t) & 1u64 == 1u64 <==> t / 6 == 4,
        (0xfc0000000u64 >> t) & 1u64 == 1u64 <==> t / 6 == 5,
        (0xfffffffffu64 >> t) & 1u64 == 1u64 <==> t < 36,
        (0x41041041u64 >> t) & 1u64 == 1u64 <==> t < 36 && t % 6 == 0,
        (0x82082082u64 >> t) & 1u64 == 1u64 <==> t < 36 && t % 6 == 1,
        (0x104104104u64 >> t) & 1u64 == 1u64 <==> t < 36 && t % 6 == 2,
        (0x208208208u64 >> t) & 1u64 == 1u64 <==> t < 36 && t % 6 == 3,
        (0x410410410u64 >> t) & 1u64 == 1u64 <==> t < 36 && t % 6 == 4,
        (0x820820820u64 >> t) & 1u64 == 1u64 <==> t < 36 && t % 6 == 5,
{
}

/// The row and column masks hold the squares of their row or column, and
/// `ALL_SQUARES` holds every square of the board.
pub proof fn lemma_masks(t: int)
    ensures
        forall|r: int| 0 <= r < 6 ==> #[trigger] on(ROW_MASK@[r], t) == (on_board(t) && row_of(t) == r),
        forall|c: int| 0 <= c < 6 ==> #[trigger] on(COL_MASK@[c], t) == (on_board(t) && col_of(t) == c),
        on(ALL_SQUARES, t) == on_board(t),
{
    if 0 <= t < 64 {
        lemma_row_mask_bits(t as u64);
        assert forall|r: int| 0 <= r < 6 implies #[trigger] on(ROW_MASK@[r], t) == (on_board(t) && row_of(t) == r) by {
            assert(r == 0 || r == 1 || r == 2 || r == 3 || r == 4 || r == 5);
        }
        assert forall|c: int| 0 <= c < 6 implies #[trigger] on(COL_MASK@[c], t) == (on_board(t) && col_of(t) == c) by {
            assert(c == 0 || c == 1 || c == 2 || c == 3 || c == 4 || c == 5);
        }
    }
}

/// Square index of a row and a column.
pub fn sq(row: usize, col: usize) -> (r: usize)
    requires
        row * 6 + col <= usize::MAX,
    ensures
        r == row * 6 + col,
{
    row * BOARD_SIZE + col
}

/// Row and column of a square.
pub fn sq_to_coords(sq: usize) -> (r: (usize, usize))
    ensures
        r.0 == sq / 6,
        r.1 == sq % 6,
{
    (sq / BOARD_SIZE, sq % BOARD_SIZE)
}

/// The mask holding just `sq`.
pub fn bit(sq: usize) -> (r: u64)
    requires
        sq < 64,
    ensures
        r == 1u64 << (sq as u64),
        forall|s: int| #[trigger] on(r, s) == (s == sq),
{
    broadcast use crate::bits::group_has;

    1u64 << (sq as u64)
}

} // verus!
