//! Forward steps and jumps of a whole side at once, by shifting masks.
use vstd::prelude::*;
use crate::bits::{group_has, on};
use crate::squares::{col_of, lemma_masks, on_board, row_of, ALL_SQUARES, BOARD_SIZE, COL_MASK};

verus! {

const COL0: u64 = 0x041041041;

const COL5: u64 = 0x820820820;

/// The square `k` times `dr` rows and `dc` columns from `s`, -1 off the board.
pub open spec fn offset_sq(s: int, dr: int, dc: int, k: int) -> int {
    let r = row_of(s) + k * dr;
    let c = col_of(s) + k * dc;
    if 0 <= r < 6 && 0 <= c < 6 {
        6 * r + c
    } else {
        -1
    }
}

proof fn lemma_shift_left(m: u64, k: u64, t: int)
    requires
        k < 64,
    ensures
        on(m << k, t) == (k <= t < 64 && on(m, t - k)),
{
    if 0 <= t < 64 {
        let j = t as u64;
        assert(k < 64 && j < 64 ==> ((m << k) >> j) & 1u64 == (if j >= k { (m >> ((j - k) as u64)) & 1u64 } else { 0u64 }))
            by (bit_vector);
    }
}

proof fn lemma_shift_right(m: u64, k: u64, t: int)
    requires
        k < 64,
    ensures
        on(m >> k, t) == (0 <= t && t + k < 64 && on(m, t + k)),
{
    if 0 <= t < 64 {
        let j = t as u64;
        assert(k < 64 && j < 64 ==> ((m >> k) >> j) & 1u64 == (if j + k < 64 { (m >> ((j + k) as u64)) & 1u64 } else { 0u64 }))
            by (bit_vector);
    }
}

/// Members of the mask are squares of the board.
pub open spec fn in_board(m: u64) -> bool {
    forall|s: int| #[trigger] on(m, s) ==> on_board(s)
}

/// Moves every square by one row step and one column step; squares that leave
/// the board are dropped.
pub fn shift_sq(mask: u64, dr: i32, dc: i32) -> (r: u64)
    requires
        -1 <= dr <= 1,
        -1 <= dc <= 1,
        in_board(mask),
    ensures
        in_board(r),
        forall|t: int| #[trigger] on(r, t) == (on_board(t) && offset_sq(t, -dr, -dc, 1) >= 0 && on(
            mask,
            offset_sq(t, -dr, -dc, 1),
        )),
{
    broadcast use group_has;

    let m: u64 = if dc == -1 {
        mask & !COL0
    } else if dc == 1 {
        mask & !COL5
    } else {
        mask
    };
    let s: i32 = dr * BOARD_SIZE as i32 + dc;
    let moved: u64 = if s >= 0 { m << (s as u64) } else { m >> ((-s) as u64) };
    let r: u64 = moved & ALL_SQUARES;
    proof {
        assert forall|t: int| #[trigger] on(r, t) == (on_board(t) && offset_sq(t, -dr, -dc, 1) >= 0 && on(
            mask,
            offset_sq(t, -dr, -dc, 1),
        )) by {
            lemma_masks(t);
            let u = t - s;
            lemma_masks(u);
            assert(COL0 == COL_MASK@[0] && COL5 == COL_MASK@[5]);
            assert(on(COL_MASK@[0], u) == (on_board(u) && col_of(u) == 0));
            assert(on(COL_MASK@[5], u) == (on_board(u) && col_of(u) == 5));
            if s >= 0 {
                lemma_shift_left(m, s as u64, t);
            } else {
                lemma_shift_right(m, (-s) as u64, t);
            }
            if on_board(t) {
                assert(on(moved, t) == on(m, u));
                let rr = row_of(t) - dr;
                let cc = col_of(t) - dc;
                if on_board(u) {
                    assert(u == 6 * rr + cc);
                    if 0 <= cc < 6 {
                        assert(row_of(u) == rr && col_of(u) == cc);
                    } else if cc == -1 {
                        assert(col_of(u) == 5);
                    } else {
                        assert(col_of(u) == 0);
                    }
                }
            }
        }
    }
    r
}

/// The barrel on `s` can jump forward over an occupied square that is not the
/// enemy pail, onto an empty one.
pub open spec fn jumps_forward(s: int, occ: u64, enemy_pail: u64, dr: int, dc: int) -> bool {
    let over = offset_sq(s, dr, dc, 1);
    let land = offset_sq(s, dr, dc, 2);
    over >= 0 && on(occ, over) && !on(enemy_pail, over) && land >= 0 && !on(occ, land)
}

/// The barrel on `s` can step forward onto an empty square.
pub open spec fn steps_forward(s: int, occ: u64, dr: int, dc: int) -> bool {
    let to = offset_sq(s, dr, dc, 1);
    to >= 0 && !on(occ, to)
}

/// Going forward and back again.
proof fn lemma_offset_back(s: int, dr: int, dc: int)
    requires
        on_board(s),
        -1 <= dr <= 1,
        -1 <= dc <= 1,
    ensures
        offset_sq(s, dr, dc, 1) >= 0 ==> on_board(offset_sq(s, dr, dc, 1)) && offset_sq(
            offset_sq(s, dr, dc, 1),
            -dr,
            -dc,
            1,
        ) == s,
        offset_sq(s, dr, dc, 2) >= 0 ==> offset_sq(s, dr, dc, 1) >= 0 && offset_sq(
            offset_sq(s, dr, dc, 1),
            dr,
            dc,
            1,
        ) == offset_sq(s, dr, dc, 2),
        offset_sq(s, dr, dc, 1) >= 0 ==> offset_sq(offset_sq(s, dr, dc, 1), dr, dc, 1) == offset_sq(s, dr, dc, 2),
{
    let r = row_of(s) + dr;
    let c = col_of(s) + dc;
    if 0 <= r < 6 && 0 <= c < 6 {
        assert((6 * r + c) / 6 == r && (6 * r + c) % 6 == c);
    }
}

/// The members of `barrels` with a forward jump, and those with a forward step,
/// for the side whose forward row step is `dr`.
#[verifier::rlimit(40)]
pub fn forward_jump_step_origins(barrels: u64, occ: u64, enemy_pail: u64, dr: i32) -> (r: (u64, u64))
    requires
        dr == 1 || dr == -1,
        in_board(barrels),
        in_board(occ),
    ensures
        forall|s: int|
            #[trigger] on(r.0, s) == (on(barrels, s) && exists|dc: int|
                -1 <= dc <= 1 && #[trigger] jumps_forward(s, occ, enemy_pail, dr as int, dc)),
        forall|s: int|
            #[trigger] on(r.1, s) == (on(barrels, s) && exists|dc: int|
                -1 <= dc <= 1 && #[trigger] steps_forward(s, occ, dr as int, dc)),
{
    broadcast use group_has;

    let mut jump: u64 = 0;
    let mut step: u64 = 0;
    let mut dc: i32 = -1;
    while dc <= 1
        invariant
            dr == 1 || dr == -1,
            -1 <= dc <= 2,
            in_board(barrels),
            in_board(occ),
            forall|s: int|
                #[trigger] on(jump, s) == (on(barrels, s) && exists|e: int|
                    -1 <= e < dc && #[trigger] jumps_forward(s, occ, enemy_pail, dr as int, e)),
            forall|s: int|
                #[trigger] on(step, s) == (on(barrels, s) && exists|e: int|
                    -1 <= e < dc && #[trigger] steps_forward(s, occ, dr as int, e)),
        decreases 2 - dc,
    {
        broadcast use group_has;

        let ghost jump0 = jump;
        let ghost step0 = step;
        let s1: u64 = shift_sq(barrels, dr, dc);
        let free: u64 = s1 & !occ;
        let over: u64 = s1 & occ & !enemy_pail;
        proof {
            assert forall|s: int| on(free, s) || on(over, s) implies on_board(s) by {
                assert(on(s1, s));
            }
        }
        let free_back: u64 = shift_sq(free, -dr, -dc);
        step = step | (free_back & barrels);
        let over_next: u64 = shift_sq(over, dr, dc);
        let land: u64 = over_next & !occ;
        proof {
            assert forall|s: int| #[trigger] on(land, s) implies on_board(s) by {
                assert(on(over_next, s));
            }
        }
        let back1: u64 = shift_sq(land, -dr, -dc);
        let back2: u64 = shift_sq(back1, -dr, -dc);
        jump = jump | (back2 & barrels);
        proof {
            let e = dc as int;
            let d = dr as int;
            assert forall|s: int| on(barrels, s) implies {
                &&& #[trigger] on(free_back, s) == steps_forward(s, occ, d, e)
                &&& on(back2, s) == jumps_forward(s, occ, enemy_pail, d, e)
            } by {
                assert(on_board(s));
                lemma_offset_back(s, d, e);
                let a = offset_sq(s, d, e, 1);
                if a >= 0 {
                    lemma_offset_back(a, d, e);
                    lemma_offset_back(a, -d, -e);
                    let b = offset_sq(a, d, e, 1);
                    if b >= 0 {
                        lemma_offset_back(b, -d, -e);
                    }
                }
            }
            assert forall|s: int|
                #[trigger] on(jump, s) == (on(barrels, s) && exists|g: int|
                    -1 <= g < dc + 1 && #[trigger] jumps_forward(s, occ, enemy_pail, d, g)) by {
                assert(on(jump, s) == (on(jump0, s) || (on(back2, s) && on(barrels, s))));
                if on(barrels, s) {
                    assert(on(free_back, s) == steps_forward(s, occ, d, e));
                    if jumps_forward(s, occ, enemy_pail, d, e) {
                        assert(-1 <= e < dc + 1);
                    }
                    if on(jump0, s) {
                        let g = choose|g: int| -1 <= g < dc && #[trigger] jumps_forward(s, occ, enemy_pail, d, g);
                        assert(-1 <= g < dc + 1 && jumps_forward(s, occ, enemy_pail, d, g));
                    }
                    if exists|g: int| -1 <= g < dc + 1 && #[trigger] jumps_forward(s, occ, enemy_pail, d, g) {
                        let g = choose|g: int| -1 <= g < dc + 1 && #[trigger] jumps_forward(s, occ, enemy_pail, d, g);
                        if g < dc {
                            assert(on(jump0, s));
                        }
                    }
                }
            }
            assert forall|s: int|
                #[trigger] on(step, s) == (on(barrels, s) && exists|g: int|
                    -1 <= g < dc + 1 && #[trigger] steps_forward(s, occ, d, g)) by {
                assert(on(step, s) == (on(step0, s) || (on(free_back, s) && on(barrels, s))));
                if on(barrels, s) {
                    assert(on(free_back, s) == steps_forward(s, occ, d, e));
                    if steps_forward(s, occ, d, e) {
                        assert(-1 <= e < dc + 1);
                    }
                    if on(step0, s) {
                        let g = choose|g: int| -1 <= g < dc && #[trigger] steps_forward(s, occ, d, g);
                        assert(-1 <= g < dc + 1 && steps_forward(s, occ, d, g));
                    }
                    if exists|g: int| -1 <= g < dc + 1 && #[trigger] steps_forward(s, occ, d, g) {
                        let g = choose|g: int| -1 <= g < dc + 1 && #[trigger] steps_forward(s, occ, d, g);
                        if g < dc {
                            assert(on(step0, s));
                        }
                    }
                }
            }
        }
        dc = dc + 1;
    }
    (jump, step)
}

} // verus!
