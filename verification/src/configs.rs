//! Numbering of barrel placements: the sets of up to four squares, none on the
//! side's goal row, in one consecutive range.
use vstd::prelude::*;
use crate::bits::{
    count_below, count_ones, drop_lowest, group_has, lemma_count_bound, lemma_count_empty, lemma_empty, lemma_lowest,
    lemma_mask_ext, lowest, on, popcount,
};
use crate::board::Player;
use crate::combin::{
    binom, choose_count, colex, colex_above, lemma_choose_30, lemma_choose_monotone, lemma_colex_above_gap,
    lemma_colex_above_same, lemma_colex_bound, lemma_colex_injective, lemma_colex_split,
};
use crate::rules::goal_row_of;
use crate::squares::{bit, on_board, row_of, BOARD_SIZE, NUM_SQUARES};

verus! {

/// Squares a colour's barrels may rest on: all but its goal row.
pub const SQUARES_PER_COLOR: usize = 30;

const NO_SQUARE: u8 = 255;

/// The first square a side's barrels may rest on; thirty consecutive ones follow.
pub open spec fn base_of(p: Player) -> int {
    match p {
        Player::White => 6,
        Player::Black => 0,
    }
}

pub open spec fn allowed(p: Player, s: int) -> bool {
    base_of(p) <= s < base_of(p) + 30
}

/// The allowed squares are the squares of the board off the goal row.
pub proof fn lemma_allowed(p: Player, s: int)
    ensures
        allowed(p, s) == (on_board(s) && row_of(s) != goal_row_of(p)),
{
}

/// The mask with the first allowed square as bit 0.
pub open spec fn shifted(p: Player, m: u64) -> u64 {
    m >> (base_of(p) as u64)
}

pub proof fn lemma_shifted(p: Player, m: u64, s: int)
    requires
        0 <= s < 58,
    ensures
        on(shifted(p, m), s) == on(m, s + base_of(p)),
{
    let k = s as u64;
    assert(k < 58 ==> ((m >> 6) >> k) & 1u64 == (m >> ((k + 6) as u64)) & 1u64) by (bit_vector);
    assert(m >> 0 == m) by (bit_vector);
}

/// All members are allowed squares.
pub open spec fn all_allowed(p: Player, m: u64) -> bool {
    forall|s: int| #[trigger] on(m, s) ==> allowed(p, s)
}

proof fn lemma_shifted_count(p: Player, m: u64, n: nat)
    requires
        all_allowed(p, m),
        n <= 30,
    ensures
        count_below(m, (base_of(p) + n) as nat) == count_below(shifted(p, m), n),
    decreases n,
{
    if n == 0 {
        lemma_count_empty(m, base_of(p) as nat);
    } else {
        lemma_shifted_count(p, m, (n - 1) as nat);
        lemma_shifted(p, m, n - 1);
    }
}

proof fn lemma_count_gap(m: u64, a: nat, b: nat)
    requires
        a <= b,
        forall|s: int| a <= s < b ==> !on(m, s),
    ensures
        count_below(m, b) == count_below(m, a),
    decreases b - a,
{
    if a < b {
        lemma_count_gap(m, a, (b - 1) as nat);
    }
}

pub proof fn lemma_popcount_shifted(p: Player, m: u64)
    requires
        all_allowed(p, m),
    ensures
        popcount(m) == count_below(shifted(p, m), 30),
{
    lemma_shifted_count(p, m, 30);
    assert forall|s: int| base_of(p) + 30 <= s < 64 implies !on(m, s) by {
        assert(on(m, s) ==> allowed(p, s));
    }
    lemma_count_gap(m, (base_of(p) + 30) as nat, 64);
}

proof fn lemma_colex_gap(m: u64, a: nat, b: nat)
    requires
        a <= b,
        forall|s: int| a <= s < b ==> !on(m, s),
    ensures
        colex(m, b) == colex(m, a),
        count_below(m, b) == count_below(m, a),
    decreases b - a,
{
    if a < b {
        lemma_colex_gap(m, a, (b - 1) as nat);
    }
}

/// Number of sets with fewer than `k` of the thirty squares.
pub open spec fn offset_of(k: nat) -> nat
    decreases k,
{
    if k == 0 {
        0
    } else {
        offset_of((k - 1) as nat) + choose_count(30, (k - 1) as nat)
    }
}

pub proof fn lemma_offsets()
    ensures
        offset_of(0) == 0,
        offset_of(1) == 1,
        offset_of(2) == 31,
        offset_of(3) == 466,
        offset_of(4) == 4526,
        offset_of(5) == 31931,
{
    lemma_choose_30();
    reveal_with_fuel(offset_of, 6);
}

pub proof fn lemma_offset_monotone(a: nat, b: nat)
    requires
        a <= b,
    ensures
        offset_of(a) <= offset_of(b),
    decreases b,
{
    if a < b {
        lemma_offset_monotone(a, (b - 1) as nat);
    }
}

/// The sets a side with `rem` barrels left can have on the board.
pub open spec fn config_ok(p: Player, rem: nat, m: u64) -> bool {
    all_allowed(p, m) && popcount(m) <= rem
}

/// The number of a set: smaller sets first, sets of one size in colex order.
pub open spec fn rank_of(p: Player, m: u64) -> nat {
    offset_of(popcount(m)) + colex(shifted(p, m), 30)
}

/// Numbers stay below the number of sets.
pub proof fn lemma_rank_bound(p: Player, rem: nat, m: u64)
    requires
        config_ok(p, rem, m),
    ensures
        rank_of(p, m) < offset_of(rem + 1),
        offset_of(popcount(m)) <= rank_of(p, m) < offset_of(popcount(m) + 1),
{
    lemma_popcount_shifted(p, m);
    lemma_colex_bound(shifted(p, m), 30);
    lemma_offset_monotone(popcount(m) + 1, rem + 1);
}

/// Different sets have different numbers.
pub proof fn law_rank_injective(p: Player, a: u64, b: u64)
    requires
        all_allowed(p, a),
        all_allowed(p, b),
        popcount(a) <= 30,
        popcount(b) <= 30,
        rank_of(p, a) == rank_of(p, b),
    ensures
        a == b,
{
    lemma_rank_bound(p, 30, a);
    lemma_rank_bound(p, 30, b);
    if popcount(a) < popcount(b) {
        lemma_offset_monotone(popcount(a) + 1, popcount(b));
    }
    if popcount(b) < popcount(a) {
        lemma_offset_monotone(popcount(b) + 1, popcount(a));
    }
    lemma_popcount_shifted(p, a);
    lemma_popcount_shifted(p, b);
    lemma_colex_injective(shifted(p, a), shifted(p, b), 30);
    assert forall|s: int| 0 <= s < 64 implies on(a, s) == on(b, s) by {
        if allowed(p, s) {
            lemma_shifted(p, a, s - base_of(p));
            lemma_shifted(p, b, s - base_of(p));
        }
    }
    lemma_mask_ext(a, b);
}

/// The numbering of the sets of one side with up to `rem` barrels.
pub struct ConfigSpace {
    pub player: Player,
    pub rem: usize,
    /// `offset[k]` is the number of sets with fewer than `k` barrels.
    pub offset: [u64; 5],
    /// The number of sets.
    pub count: u64,
    /// The allowed squares in ascending order.
    pub squares: [u8; SQUARES_PER_COLOR],
    /// The place of a square in `squares`, 255 for the goal row.
    pub pos_of: [u8; NUM_SQUARES],
}

impl ConfigSpace {
    pub open spec fn wf(&self) -> bool {
        &&& self.rem <= 4
        &&& self.count == offset_of((self.rem + 1) as nat)
        &&& forall|k: int| 0 <= k <= self.rem ==> #[trigger] self.offset@[k] == offset_of(k as nat)
        &&& forall|i: int| 0 <= i < 30 ==> #[trigger] self.squares@[i] == base_of(self.player) + i
        &&& forall|s: int|
            0 <= s < 36 ==> #[trigger] self.pos_of@[s] == (if allowed(self.player, s) {
                s - base_of(self.player)
            } else {
                255
            })
    }

    pub fn new(player: Player, rem: usize) -> (r: Self)
        requires
            rem <= 4,
        ensures
            r.wf(),
            r.player == player,
            r.rem == rem,
    {
        let goal_row: usize = match player {
            Player::White => 0,
            Player::Black => BOARD_SIZE - 1,
        };
        let mut squares: [u8; SQUARES_PER_COLOR] = [0u8; SQUARES_PER_COLOR];
        let mut pos_of: [u8; NUM_SQUARES] = [NO_SQUARE; NUM_SQUARES];
        let mut n: usize = 0;
        let mut sq: usize = 0;
        while sq < NUM_SQUARES
            invariant
                sq <= 36,
                goal_row == goal_row_of(player),
                n == (if sq < base_of(player) {
                    0
                } else if sq <= base_of(player) + 30 {
                    sq - base_of(player)
                } else {
                    30
                }),
                forall|i: int| 0 <= i < n ==> #[trigger] squares@[i] == base_of(player) + i,
                forall|s: int|
                    0 <= s < 36 ==> #[trigger] pos_of@[s] == (if s < sq && allowed(player, s) {
                        s - base_of(player)
                    } else {
                        255
                    }),
            decreases 36 - sq,
        {
            proof {
                lemma_allowed(player, sq as int);
            }
            if sq / BOARD_SIZE != goal_row {
                squares[n] = sq as u8;
                pos_of[sq] = n as u8;
                n = n + 1;
            }
            sq = sq + 1;
        }
        let mut offset: [u64; 5] = [0u64; 5];
        let mut acc: u64 = 0;
        let mut k: usize = 0;
        while k <= rem
            invariant
                k <= rem + 1,
                rem <= 4,
                acc == offset_of(k as nat),
                acc <= k * 60000,
                forall|j: int| 0 <= j < k ==> #[trigger] offset@[j] == offset_of(j as nat),
            decreases rem + 1 - k,
        {
            offset[k] = acc;
            acc = acc + binom(SQUARES_PER_COLOR, k);
            k = k + 1;
        }
        ConfigSpace { player, rem, offset, count: acc, squares, pos_of }
    }

    /// The number of a set of squares; none if it is too large or touches the
    /// goal row.
    pub fn rank(&self, mask: u64) -> (r: Option<u64>)
        requires
            self.wf(),
            forall|s: int| #[trigger] on(mask, s) ==> on_board(s),
        ensures
            r is Some <==> config_ok(self.player, self.rem as nat, mask),
            r matches Some(i) ==> i == rank_of(self.player, mask) && i < self.count,
    {
        let k: usize = count_ones(mask) as usize;
        if k > self.rem {
            return None;
        }
        let ghost p = self.player;
        let ghost pm = shifted(p, mask);
        let mut r: u64 = 0;
        let mut m: u64 = mask;
        let mut i: usize = 0;
        let ghost mut done: nat = 0;
        let ghost mut next: int = 0;
        proof {
            lemma_offsets();
            lemma_count_bound(mask, 64);
        }
        while m != 0
            invariant
                self.wf(),
                p == self.player,
                pm == shifted(p, mask),
                k == popcount(mask),
                k <= self.rem,
                forall|s: int| #[trigger] on(mask, s) ==> on_board(s),
                forall|s: int| #[trigger] on(m, s) == (on(mask, s) && s >= next),
                forall|s: int| #[trigger] on(mask, s) && s < next ==> allowed(p, s),
                done <= 30,
                next == base_of(p) + done || (next == 0 && done == 0),
                r == colex(pm, done),
                i == count_below(pm, done),
                i + popcount(m) == k,
                r <= i * 60000,
            decreases m,
        {
            let sq: usize = lowest(m);
            let ghost m0 = m;
            assert(on(mask, sq as int));
            let pos: u8 = self.pos_of[sq];
            if pos == NO_SQUARE {
                assert(!allowed(p, sq as int));
                return None;
            }
            let ghost q = pos as nat;
            proof {
                assert(sq == q + base_of(p));
                assert forall|s: int| done <= s < q implies !on(pm, s) by {
                    lemma_shifted(p, mask, s);
                    assert(!on(m, s + base_of(p)));
                }
                lemma_colex_gap(pm, done, q);
                lemma_shifted(p, mask, q as int);
                assert(on(pm, q as int));
                crate::bits::lemma_lowest(m0);
            }
            i = i + 1;
            m = drop_lowest(m);
            proof {
                crate::bits::lemma_count_remove(m0, m, sq as int, 64);
            }
            r = r + binom(pos as usize, i);
            proof {
                assert forall|s: int| #[trigger] on(mask, s) && s < sq + 1 implies allowed(p, s) by {
                    if next <= s < sq {
                        assert(!on(m0, s));
                    }
                }
                done = q + 1;
                next = sq + 1;
            }
        }
        proof {
            lemma_empty(m);
            assert(all_allowed(p, mask)) by {
                assert forall|s: int| #[trigger] on(mask, s) implies allowed(p, s) by {
                    assert(!on(m, s));
                }
            }
            assert forall|s: int| done <= s < 30 implies !on(pm, s) by {
                lemma_shifted(p, mask, s);
                assert(!on(m, s + base_of(p)));
            }
            lemma_colex_gap(pm, done, 30);
            lemma_rank_bound(p, self.rem as nat, mask);
        }
        Some(self.offset[k] + r)
    }

    /// The set with a number.
    pub fn unrank(&self, idx: u64) -> (r: u64)
        requires
            self.wf(),
            idx < self.count,
        ensures
            config_ok(self.player, self.rem as nat, r),
            rank_of(self.player, r) == idx,
    {
        let ghost p = self.player;
        let mut k: usize = 0;
        proof {
            lemma_offsets();
        }
        while k + 1 <= self.rem && idx >= self.offset[k + 1]
            invariant
                self.wf(),
                k <= self.rem,
                offset_of(k as nat) <= idx,
                idx < self.count,
            decreases self.rem - k,
        {
            k = k + 1;
        }
        let mut r: u64 = idx - self.offset[k];
        let mut mask: u64 = 0;
        let mut kk: usize = k;
        let ghost r0 = r;
        let ghost mut limit: int = 30;
        proof {
            broadcast use group_has;

            assert(k < self.rem ==> idx < self.offset@[k + 1]);
            assert(r < choose_count(30, k as nat));
            assert forall|s: int| 0 <= s < 30 implies !on(shifted(p, mask), s) by {
                lemma_shifted(p, mask, s);
            }
            lemma_count_empty(shifted(p, mask), 30);
        }
        while kk > 0
            invariant
                self.wf(),
                p == self.player,
                kk <= k <= self.rem <= 4,
                0 <= limit <= 30,
                all_allowed(p, mask),
                forall|s: int| 0 <= s < limit ==> !on(shifted(p, mask), s),
                count_below(shifted(p, mask), 30) + kk == k,
                colex_above(shifted(p, mask), limit, 30, kk as nat) + r == r0,
                r < choose_count(limit as nat, kk as nat),
            decreases kk,
        {
            proof {
                crate::combin::lemma_choose_small(kk as nat);
            }
            let mut q: usize = kk - 1;
            while q + 1 < SQUARES_PER_COLOR && binom(q + 1, kk) <= r
                invariant
                    1 <= kk <= 4,
                    kk - 1 <= q < 30,
                    choose_count(q as nat, kk as nat) <= r,
                decreases 30 - q,
            {
                q = q + 1;
            }
            proof {
                if q >= limit {
                    lemma_choose_monotone(limit as nat, q as nat, kk as nat);
                }
                if q + 1 == 30 {
                    assert(limit == 30);
                }
                assert(r < choose_count((q + 1) as nat, kk as nat));
            }
            let ghost mask0 = mask;
            let ghost pm0 = shifted(p, mask);
            r = r - binom(q, kk);
            mask = mask | bit(self.squares[q] as usize);
            proof {
                broadcast use group_has;

                let pm = shifted(p, mask);
                assert forall|s: int| 0 <= s < 58 implies on(pm, s) == (on(pm0, s) || s == q) by {
                    lemma_shifted(p, mask, s);
                    lemma_shifted(p, mask0, s);
                }
                lemma_colex_above_gap(pm0, q + 1, limit, 30, kk as nat);
                lemma_colex_above_same(pm0, pm, q + 1, 30, kk as nat);
                assert(colex_above(pm, q as int, 30, (kk - 1) as nat) == choose_count(q as nat, kk as nat)
                    + colex_above(pm, q + 1, 30, kk as nat));
                lemma_count_add(pm0, pm, q as int, 30);
                limit = q as int;
            }
            kk = kk - 1;
        }
        proof {
            let pm = shifted(p, mask);
            lemma_choose_one(limit as nat);
            lemma_colex_split(pm, limit, 30);
            lemma_colex_gap(pm, 0, limit as nat);
            lemma_popcount_shifted(p, mask);
        }
        mask
    }
}

proof fn lemma_choose_one(n: nat)
    ensures
        choose_count(n, 0) == 1,
{
}

/// Adding one member raises the count by one.
proof fn lemma_count_add(a: u64, b: u64, t: int, n: nat)
    requires
        n <= 58,
        0 <= t,
        !on(a, t),
        forall|s: int| 0 <= s < 58 ==> on(b, s) == (on(a, s) || s == t),
    ensures
        count_below(b, n) == count_below(a, n) + if t < n { 1nat } else { 0nat },
    decreases n,
{
    if n > 0 {
        lemma_count_add(a, b, t, (n - 1) as nat);
        assert(on(b, n - 1) == (on(a, n - 1) || n - 1 == t));
    }
}

} // verus!
