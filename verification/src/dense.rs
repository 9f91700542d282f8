//! Dense inputs of the network as fractions with fixed denominators.
use vstd::prelude::*;
use crate::bitboard::BitBoard;
use crate::bits::{count_ones, drop_lowest, lemma_lowest, lowest, members_from, on, popcount};
use crate::board::{Cell, Player};
use crate::features::{lemma_members_len, lemma_members_lowest, HALFPAIL_DENSE, MAX_DENSE};
use crate::forward::{forward_jump_step_origins, jumps_forward, steps_forward};
use crate::heuristic::{at_dist_sum, blocking_sum, pail_from, races_of, EvalWeights};
use crate::race::RaceTable;
use crate::rules::barrels_on;
use crate::squares::{on_board, row_of, BOARD_SIZE};

verus! {

/// The denominators of the inputs: distances in fifths, counts in quarters,
/// flags whole, race distances in eighths, the clock in sixtieths.
pub const DENSE_DEN: [i16; MAX_DENSE] = [
    5, 5, 5, 5, 5, 5, 5, 5, 4, 4, 1, 1, 1, 4, 4, 4, 4, 4, 4, 4, 8, 8, 4, 4, 4, 4, 60, 1, 1, 1, 1, 1,
];

/// Weights that make the blocking bonus a count of blocked barrels.
pub open spec fn count_weights() -> EvalWeights {
    EvalWeights {
        progress: 0,
        center_pail: 0,
        blocking: 1,
        scored: 0,
        threat: 0,
        threat2: 0,
        adj_blocking: 0,
        mobility: 0,
        passed: 0,
        trapped: 0,
        score_accel: 0,
        eg_threat: 0,
        jump: 0,
        race: 0,
    }
}

/// Enemy barrels that the pail of `p` stands in front of, in their column.
pub open spec fn blocked_by(bb: BitBoard, p: Player) -> int {
    let q = pail_from(bb@.cells, p, 0);
    if q < 0 {
        0
    } else {
        blocking_sum(count_weights(), bb@.cells, p, q, 36)
    }
}

/// The mask of barrels with a forward jump (or step), seen as a set.
pub open spec fn jumper(bb: BitBoard, p: Player, s: int) -> bool {
    on(bb.barrels_of(p), s) && exists|dc: int|
        -1 <= dc <= 1 && #[trigger] jumps_forward(s, bb.occupied, bb.pail_mask_of(p.opponent()), forward_dir(p), dc)
}

pub open spec fn stepper(bb: BitBoard, p: Player, s: int) -> bool {
    on(bb.barrels_of(p), s) && exists|dc: int|
        -1 <= dc <= 1 && #[trigger] steps_forward(s, bb.occupied, forward_dir(p), dc)
}

pub open spec fn forward_dir(p: Player) -> int {
    match p {
        Player::White => -1,
        Player::Black => 1,
    }
}

/// How many squares below `n` hold a barrel with a forward jump.
pub open spec fn jumper_count(bb: BitBoard, p: Player, n: nat) -> nat
    decreases n,
{
    if n == 0 {
        0
    } else {
        jumper_count(bb, p, (n - 1) as nat) + if jumper(bb, p, n - 1) { 1nat } else { 0nat }
    }
}

pub open spec fn stepper_count(bb: BitBoard, p: Player, n: nat) -> nat
    decreases n,
{
    if n == 0 {
        0
    } else {
        stepper_count(bb, p, (n - 1) as nat) + if stepper(bb, p, n - 1) { 1nat } else { 0nat }
    }
}

pub open spec fn at_most(x: int, m: int) -> int {
    if x < m {
        x
    } else {
        m
    }
}

/// The numerators of the dense inputs.
///
/// 0-3 and 4-7: the barrels' distances to the goal, the nearest first;
/// 8-9 barrels home; 10-11 pails on the board; 12 the side to move; 13-14
/// barrels one row from the goal; 15 score difference; 16-17 barrels on the
/// board; 18-19 barrels blocked by the pails; 20-21 race distances; 22-23
/// barrels with a forward jump; 24-25 with a forward step; 26 the clock; 27
/// whether a barrel move is owed.
pub open spec fn dense_num(bb: BitBoard, k: int) -> int {
    let w = members_from(bb.white_barrels, 0);
    let b = members_from(bb.black_barrels, 0);
    if k < 4 {
        if k < w.len() { row_of(w[k]) } else { 0 }
    } else if k < 8 {
        if k - 4 < b.len() { 5 - row_of(b[b.len() - 1 - (k - 4)]) } else { 0 }
    } else if k == 8 {
        bb.white_scored as int
    } else if k == 9 {
        bb.black_scored as int
    } else if k == 10 {
        if bb.white_pail != 0 { 1 } else { 0 }
    } else if k == 11 {
        if bb.black_pail != 0 { 1 } else { 0 }
    } else if k == 12 {
        if bb.current_player == Player::White { 1 } else { -1 }
    } else if k == 13 {
        at_dist_sum(bb@.cells, Player::White, 1, 36)
    } else if k == 14 {
        at_dist_sum(bb@.cells, Player::Black, 1, 36)
    } else if k == 15 {
        bb.white_scored - bb.black_scored
    } else if k == 16 {
        w.len() as int
    } else if k == 17 {
        b.len() as int
    } else if k == 18 {
        blocked_by(bb, Player::White)
    } else if k == 19 {
        blocked_by(bb, Player::Black)
    } else if k == 20 {
        at_most(races_of(bb).0 as int, 8)
    } else if k == 21 {
        at_most(races_of(bb).1 as int, 8)
    } else if k == 22 {
        jumper_count(bb, Player::White, 64) as int
    } else if k == 23 {
        jumper_count(bb, Player::Black, 64) as int
    } else if k == 24 {
        stepper_count(bb, Player::White, 64) as int
    } else if k == 25 {
        stepper_count(bb, Player::Black, 64) as int
    } else if k == 26 {
        at_most(bb.halfmove_clock as int, 60)
    } else if k == 27 {
        if bb.awaiting_barrel { 1 } else { 0 }
    } else {
        0
    }
}

/// The rows of the members of a mask, ascending.
fn rows_of(mask: u64) -> (r: Vec<i16>)
    requires
        forall|s: int| #[trigger] on(mask, s) ==> on_board(s),
    ensures
        r@.len() == members_from(mask, 0).len(),
        forall|i: int| 0 <= i < r@.len() ==> #[trigger] r@[i] == row_of(members_from(mask, 0)[i]),
        forall|i: int| 0 <= i < r@.len() ==> 0 <= #[trigger] r@[i] <= 5,
        r@.len() == popcount(mask),
{
    let ghost all = members_from(mask, 0);
    let mut r: Vec<i16> = Vec::new();
    let mut m: u64 = mask;
    proof {
        lemma_members_len(mask, 0);
        assert(all.subrange(0, all.len() as int) =~= all);
    }
    while m != 0
        invariant
            forall|s: int| #[trigger] on(mask, s) ==> on_board(s),
            forall|s: int| #[trigger] on(m, s) ==> on(mask, s),
            all == members_from(mask, 0),
            r@.len() <= all.len(),
            all.subrange(r@.len() as int, all.len() as int) == members_from(m, 0),
            forall|i: int| 0 <= i < r@.len() ==> #[trigger] r@[i] == row_of(all[i]),
            forall|i: int| 0 <= i < r@.len() ==> 0 <= #[trigger] r@[i] <= 5,
        decreases m,
    {
        let s: usize = lowest(m);
        let ghost m0 = m;
        let ghost k = r@.len() as int;
        proof {
            lemma_lowest(m);
            lemma_members_lowest(m);
            assert(on(mask, s as int));
            assert(members_from(m, 0).len() >= 1);
            assert(all.subrange(k, all.len() as int).len() == all.len() - k);
            assert(all.subrange(k, all.len() as int)[0] == s);
            assert(all[k] == s);
        }
        r.push((s / BOARD_SIZE) as i16);
        m = drop_lowest(m);
        proof {
            assert(all.subrange(k + 1, all.len() as int) =~= all.subrange(k, all.len() as int).drop_first());
            assert(members_from(m0, 0).drop_first() =~= members_from(m, 0));
        }
    }
    proof {
        crate::bits::lemma_empty(m);
        lemma_no_members(m, 0);
    }
    r
}

proof fn lemma_no_members(m: u64, from: int)
    requires
        forall|s: int| 0 <= s < 64 ==> !on(m, s),
        0 <= from,
    ensures
        members_from(m, from).len() == 0,
    decreases 64 - from,
{
    if from < 64 {
        lemma_no_members(m, from + 1);
    }
}

/// Enemy barrels that the pail of a side stands in front of.
fn count_blocked(bb: &BitBoard, player: Player) -> (r: i32)
    requires
        bb.inv(),
        barrels_on(bb@.cells, player.opponent(), 36) <= 4,
    ensures
        r == blocked_by(*bb, player),
        0 <= r <= 4,
{
    let w = EvalWeights {
        progress: 0,
        center_pail: 0,
        blocking: 1,
        scored: 0,
        threat: 0,
        threat2: 0,
        adj_blocking: 0,
        mobility: 0,
        passed: 0,
        trapped: 0,
        score_accel: 0,
        eg_threat: 0,
        jump: 0,
        race: 0,
    };
    proof {
        let q = pail_from(bb@.cells, player, 0);
        lemma_blocked_bound(bb@.cells, player, q, 36);
        assert(6 * 0 == 0);
        reveal(crate::heuristic::size);
    }
    w.pail_value(bb, player)
}

proof fn lemma_blocked_bound(cells: Seq<Cell>, p: Player, q: int, n: nat)
    ensures
        0 <= blocking_sum(count_weights(), cells, p, q, n) <= barrels_on(cells, p.opponent(), n),
    decreases n,
{
    if n > 0 {
        lemma_blocked_bound(cells, p, q, (n - 1) as nat);
    }
}

proof fn lemma_jumper_count(bb: BitBoard, p: Player, m: u64, n: nat)
    requires
        n <= 64,
        forall|s: int| #[trigger] on(m, s) == jumper(bb, p, s),
    ensures
        crate::bits::count_below(m, n) == jumper_count(bb, p, n),
    decreases n,
{
    if n > 0 {
        lemma_jumper_count(bb, p, m, (n - 1) as nat);
        assert(on(m, n - 1) == jumper(bb, p, n - 1));
    }
}

proof fn lemma_stepper_count(bb: BitBoard, p: Player, m: u64, n: nat)
    requires
        n <= 64,
        forall|s: int| #[trigger] on(m, s) == stepper(bb, p, s),
    ensures
        crate::bits::count_below(m, n) == stepper_count(bb, p, n),
    decreases n,
{
    if n > 0 {
        lemma_stepper_count(bb, p, m, (n - 1) as nat);
        assert(on(m, n - 1) == stepper(bb, p, n - 1));
    }
}

/// A subset is no larger.
proof fn lemma_count_subset(a: u64, b: u64, n: nat)
    requires
        forall|s: int| #[trigger] on(a, s) ==> on(b, s),
    ensures
        crate::bits::count_below(a, n) <= crate::bits::count_below(b, n),
    decreases n,
{
    if n > 0 {
        lemma_count_subset(a, b, (n - 1) as nat);
        assert(on(a, n - 1) ==> on(b, n - 1));
    }
}

/// Barrels of a side with a forward jump, and with a forward step.
fn forward_counts(bb: &BitBoard, player: Player) -> (r: (i16, i16))
    requires
        bb.inv(),
        popcount(bb.barrels_of(player)) <= 4,
    ensures
        r.0 == jumper_count(*bb, player, 64),
        r.1 == stepper_count(*bb, player, 64),
        0 <= r.0 <= 4,
        0 <= r.1 <= 4,
{
    proof {
        assert forall|s: int| on(bb.barrels_of(player), s) || on(bb.occupied, s) implies on_board(s) by {
            bb.lemma_square(s);
            assert(on(bb.barrels_of(player), s) == (bb.cell_at(s) == crate::rules::barrel_of(player)));
        }
    }
    let dr: i32 = match player {
        Player::White => -1,
        Player::Black => 1,
    };
    let (jump, step): (u64, u64) = forward_jump_step_origins(
        bb.barrels(player),
        bb.occupied,
        bb.pail(player.opponent()),
        dr,
    );
    proof {
        assert(dr as int == forward_dir(player));
        assert forall|s: int| #[trigger] on(jump, s) == jumper(*bb, player, s) by {}
        assert forall|s: int| #[trigger] on(step, s) == stepper(*bb, player, s) by {}
        lemma_jumper_count(*bb, player, jump, 64);
        lemma_stepper_count(*bb, player, step, 64);
        lemma_count_subset(jump, bb.barrels_of(player), 64);
        lemma_count_subset(step, bb.barrels_of(player), 64);
    }
    (count_ones(jump) as i16, count_ones(step) as i16)
}

/// The first `n` numerators are in place and the rest are zero.
spec fn filled(out: Seq<i16>, bb: BitBoard, n: int) -> bool {
    forall|k: int| 0 <= k < 32 ==> #[trigger] out[k] == (if k < n { dense_num(bb, k) } else { 0 })
}

/// The numerators of the twenty relational inputs; the rest are zero.
pub fn compute_relational_features(bb: &BitBoard) -> (out: [i16; MAX_DENSE])
    requires
        bb.wf(),
    ensures
        forall|k: int|
            0 <= k < 32 ==> #[trigger] out@[k] == (if k < HALFPAIL_DENSE { dense_num(*bb, k) } else { 0 }),
        forall|k: int| 0 <= k < 32 ==> -DENSE_DEN@[k] <= #[trigger] out@[k] <= DENSE_DEN@[k],
{
    proof {
        crate::phase::lemma_barrels_popcount(*bb, Player::White);
        crate::phase::lemma_barrels_popcount(*bb, Player::Black);
        assert forall|s: int| on(bb.white_barrels, s) || on(bb.black_barrels, s) implies on_board(s) by {
            bb.lemma_square(s);
        }
    }
    let mut out: [i16; MAX_DENSE] = [0i16; MAX_DENSE];
    let wr = rows_of(bb.white_barrels);
    let br = rows_of(bb.black_barrels);
    let nw: usize = wr.len();
    let nb: usize = br.len();
    let mut i: usize = 0;
    while i < 4
        invariant
            i <= 4,
            nw == wr@.len(),
            nw <= 4,
            nw == members_from(bb.white_barrels, 0).len(),
            forall|k: int| 0 <= k < nw ==> #[trigger] wr@[k] == row_of(members_from(bb.white_barrels, 0)[k]),
            forall|k: int| 0 <= k < nw ==> 0 <= #[trigger] wr@[k] <= 5,
            filled(out@, *bb, i as int),
            forall|k: int| 0 <= k < 32 ==> 0 <= #[trigger] out@[k] <= 5,
            forall|k: int| i <= k < 32 ==> #[trigger] out@[k] == 0,
        decreases 4 - i,
    {
        if i < nw {
            out[i] = wr[i];
        }
        i = i + 1;
    }
    while i < 8
        invariant
            4 <= i <= 8,
            nb == br@.len(),
            nb <= 4,
            nb == members_from(bb.black_barrels, 0).len(),
            forall|k: int| 0 <= k < nb ==> #[trigger] br@[k] == row_of(members_from(bb.black_barrels, 0)[k]),
            forall|k: int| 0 <= k < nb ==> 0 <= #[trigger] br@[k] <= 5,
            filled(out@, *bb, i as int),
            forall|k: int| 0 <= k < 32 ==> 0 <= #[trigger] out@[k] <= 5,
            forall|k: int| i <= k < 32 ==> #[trigger] out@[k] == 0,
        decreases 8 - i,
    {
        if i - 4 < nb {
            out[i] = 5 - br[nb - 1 - (i - 4)];
        }
        i = i + 1;
    }
    let wt = bb.side_terms(Player::White);
    let bt = bb.side_terms(Player::Black);
    out[8] = bb.white_scored as i16;
    out[9] = bb.black_scored as i16;
    out[10] = if bb.white_pail != 0 { 1 } else { 0 };
    out[11] = if bb.black_pail != 0 { 1 } else { 0 };
    out[12] = match bb.current_player {
        Player::White => 1,
        Player::Black => -1,
    };
    out[13] = wt.threats as i16;
    out[14] = bt.threats as i16;
    out[15] = bb.white_scored as i16 - bb.black_scored as i16;
    out[16] = nw as i16;
    out[17] = nb as i16;
    out[18] = count_blocked(bb, Player::White) as i16;
    out[19] = count_blocked(bb, Player::Black) as i16;
    proof {
        assert forall|k: int| 0 <= k < 32 implies #[trigger] out@[k] == (if k < 20 { dense_num(*bb, k) } else { 0 })
            && -DENSE_DEN@[k] <= out@[k] <= DENSE_DEN@[k] by {
            if k < 8 {
                assert(k == 0 || k == 1 || k == 2 || k == 3 || k == 4 || k == 5 || k == 6 || k == 7);
            } else if k < 20 {
                assert(k == 8 || k == 9 || k == 10 || k == 11 || k == 12 || k == 13 || k == 14 || k == 15 || k == 16 || k
                    == 17 || k == 18 || k == 19);
            } else {
                assert(k == 20 || k == 21 || k == 22 || k == 23 || k == 24 || k == 25 || k == 26 || k == 27 || k == 28
                    || k == 29 || k == 30 || k == 31);
            }
        }
    }
    out
}

/// The numerators of the dense inputs for a size of 0, 20 or 28; the rest are
/// zero. Every input lies between -1 and 1.
pub fn compute_dense(bb: &BitBoard, race: &RaceTable, dense_size: usize) -> (out: [i16; MAX_DENSE])
    requires
        bb.wf(),
        race.wf(),
        dense_size == 0 || dense_size == 20 || dense_size == 28,
    ensures
        forall|k: int| 0 <= k < 32 ==> #[trigger] out@[k] == (if k < dense_size { dense_num(*bb, k) } else { 0 }),
        forall|k: int| 0 <= k < 32 ==> -DENSE_DEN@[k] <= #[trigger] out@[k] <= DENSE_DEN@[k],
{
    if dense_size == 0 {
        let zero: [i16; MAX_DENSE] = [0i16; MAX_DENSE];
        proof {
            assert forall|k: int| 0 <= k < 32 implies -DENSE_DEN@[k] <= #[trigger] zero@[k] <= DENSE_DEN@[k] by {
                lemma_den(k);
            }
        }
        return zero;
    }
    let mut out = compute_relational_features(bb);
    if dense_size <= HALFPAIL_DENSE {
        return out;
    }
    proof {
        crate::phase::lemma_barrels_popcount(*bb, Player::White);
        crate::phase::lemma_barrels_popcount(*bb, Player::Black);
    }
    let ghost first = out@;
    let (wd, bd): (u16, u16) = crate::heuristic::race_distances(race, bb);
    let (wj, ws): (i16, i16) = forward_counts(bb, Player::White);
    let (bj, bs): (i16, i16) = forward_counts(bb, Player::Black);
    out[20] = if wd < 8 { wd as i16 } else { 8 };
    out[21] = if bd < 8 { bd as i16 } else { 8 };
    out[22] = wj;
    out[23] = bj;
    out[24] = ws;
    out[25] = bs;
    out[26] = if bb.halfmove_clock < 60 { bb.halfmove_clock as i16 } else { 60 };
    out[27] = if bb.awaiting_barrel { 1 } else { 0 };
    proof {
        assert forall|k: int| 0 <= k < 32 implies #[trigger] out@[k] == (if k < 28 { dense_num(*bb, k) } else { 0 })
            && -DENSE_DEN@[k] <= out@[k] <= DENSE_DEN@[k] by {
            if k < 20 {
                assert(out@[k] == first[k]);
            } else {
                assert(k == 20 || k == 21 || k == 22 || k == 23 || k == 24 || k == 25 || k == 26 || k == 27 || k == 28
                    || k == 29 || k == 30 || k == 31);
                lemma_den(k);
                if k >= 28 {
                    assert(out@[k] == first[k]);
                }
            }
        }
    }
    out
}

proof fn lemma_den(k: int)
    requires
        0 <= k < 32,
    ensures
        1 <= DENSE_DEN@[k] <= 60,
{
    assert(k == 0 || k == 1 || k == 2 || k == 3 || k == 4 || k == 5 || k == 6 || k == 7 || k == 8 || k == 9 || k == 10 || k
        == 11 || k == 12 || k == 13 || k == 14 || k == 15 || k == 16 || k == 17 || k == 18 || k == 19 || k == 20 || k == 21
        || k == 22 || k == 23 || k == 24 || k == 25 || k == 26 || k == 27 || k == 28 || k == 29 || k == 30 || k == 31);
}

/// The nearest multiple of 1/128, counted in 128ths, to a fraction between -1
/// and 1; halves go away from zero.
pub open spec fn in_128ths(num: int, den: int) -> int {
    if num >= 0 {
        (256 * num + den) / (2 * den)
    } else {
        -((256 * (-num) + den) / (2 * den))
    }
}

/// A fraction in 128ths.
pub fn quantize(num: i16, den: i16) -> (r: i16)
    requires
        1 <= den <= 60,
        -den <= num <= den,
    ensures
        r == in_128ths(num as int, den as int),
        -128 <= r <= 128,
{
    let n: i32 = if num >= 0 { num as i32 } else { -(num as i32) };
    let d: i32 = den as i32;
    proof {
        let a = 256 * n + d;
        let b = 2 * d;
        assert(0 <= a / b <= 128) by (nonlinear_arith)
            requires
                0 <= n <= d,
                1 <= d,
                a == 256 * n + d,
                b == 2 * d,
        ;
    }
    let q: i32 = (256 * n + d) / (2 * d);
    if num >= 0 {
        q as i16
    } else {
        -(q as i16)
    }
}

/// The dense inputs in 128ths.
pub fn dense_inputs(bb: &BitBoard, race: &RaceTable, dense_size: usize) -> (out: [i16; MAX_DENSE])
    requires
        bb.wf(),
        race.wf(),
        dense_size == 0 || dense_size == 20 || dense_size == 28,
    ensures
        forall|k: int|
            0 <= k < 32 ==> #[trigger] out@[k] == (if k < dense_size {
                in_128ths(dense_num(*bb, k), DENSE_DEN@[k] as int)
            } else {
                0
            }),
        forall|k: int| 0 <= k < 32 ==> -128 <= #[trigger] out@[k] <= 128,
{
    let nums = compute_dense(bb, race, dense_size);
    let mut out: [i16; MAX_DENSE] = [0i16; MAX_DENSE];
    let mut k: usize = 0;
    while k < dense_size
        invariant
            k <= dense_size <= 28,
            forall|j: int|
                0 <= j < 32 ==> #[trigger] nums@[j] == (if j < dense_size { dense_num(*bb, j) } else { 0 }),
            forall|j: int| 0 <= j < 32 ==> -DENSE_DEN@[j] <= #[trigger] nums@[j] <= DENSE_DEN@[j],
            forall|j: int|
                0 <= j < 32 ==> #[trigger] out@[j] == (if j < k {
                    in_128ths(dense_num(*bb, j), DENSE_DEN@[j] as int)
                } else {
                    0
                }),
            forall|j: int| 0 <= j < 32 ==> -128 <= #[trigger] out@[j] <= 128,
        decreases dense_size - k,
    {
        proof {
            lemma_den(k as int);
            assert(nums@[k as int] == dense_num(*bb, k as int));
        }
        out[k] = quantize(nums[k], DENSE_DEN[k]);
        k = k + 1;
    }
    out
}

} // verus!
