//! What the dense inputs of a network count.
use vstd::prelude::*;
use crate::bitboard::BitBoard;
use crate::bits::{members_from, on};
use crate::board::{Cell, Player};
use crate::dense::{
    blocked_by, compute_dense, count_weights, dense_num, forward_dir, jumper, jumper_count, quantize, stepper, stepper_count,
};
use crate::eval_laws::{
    central, gap, gaps_ahead, held_up, leap, leaps_ahead, lemma_pail_worth, lemma_races_of, lemma_stands, over, stands,
};
use crate::forward::{jumps_forward, steps_forward};
use crate::heuristic::{at_dist_sum, pail_score};
use crate::race::RaceTable;
use crate::rules::{barrel_of, pail_of};

verus! {

/// How many squares the test picks.
pub open spec fn squares_with(test: spec_fn(int) -> bool) -> int {
    over(
        |q: int|
            if test(q) {
                1
            } else {
                0
            },
        36,
    )
}

/// The inputs that the counters and pails give: barrels home, pails on the board,
/// one for white to move and minus one for black, white's lead in barrels home, the
/// moves without progress up to sixty, and whether a barrel move is owed.
#[verifier::spinoff_prover]
pub proof fn law_dense_counters(bb: BitBoard, race: RaceTable, out: [i16; 32])
    requires
        call_ensures(compute_dense, (&bb, &race, 28usize), out),
    ensures
        out@[8] == bb.white_scored,
        out@[9] == bb.black_scored,
        out@[10] == if bb.white_pail != 0 {
            1int
        } else {
            0
        },
        out@[11] == if bb.black_pail != 0 {
            1int
        } else {
            0
        },
        bb.current_player == Player::White ==> out@[12] == 1,
        bb.current_player == Player::Black ==> out@[12] == -1,
        out@[15] == bb.white_scored - bb.black_scored,
        out@[26] == if bb.halfmove_clock < 60 {
            bb.halfmove_clock as int
        } else {
            60
        },
        out@[27] == if bb.awaiting_barrel {
            1int
        } else {
            0
        },
{
    assert(out@[8] == dense_num(bb, 8) && out@[9] == dense_num(bb, 9) && out@[10] == dense_num(bb, 10) && out@[11]
        == dense_num(bb, 11) && out@[12] == dense_num(bb, 12) && out@[15] == dense_num(bb, 15) && out@[26] == dense_num(
        bb,
        26,
    ) && out@[27] == dense_num(bb, 27));
}

/// The inputs that the barrels give: how many of each side stand one row from home,
/// how many are on the board, how many can jump ahead and how many can step ahead.
#[verifier::spinoff_prover]
pub proof fn law_dense_barrels(bb: BitBoard, race: RaceTable, out: [i16; 32])
    requires
        bb.wf(),
        call_ensures(compute_dense, (&bb, &race, 28usize), out),
    ensures
        out@[13] == squares_with(|q: int| bb@.cells[q] == Cell::WhiteBarrel && q / 6 == 1),
        out@[14] == squares_with(|q: int| bb@.cells[q] == Cell::BlackBarrel && q / 6 == 4),
        out@[16] == squares_with(|q: int| bb@.cells[q] == Cell::WhiteBarrel),
        out@[17] == squares_with(|q: int| bb@.cells[q] == Cell::BlackBarrel),
        out@[22] == squares_with(
            |q: int| bb@.cells[q] == Cell::WhiteBarrel && leaps_ahead(bb@.cells, q, -1, Cell::WhitePail) > 0,
        ),
        out@[23] == squares_with(
            |q: int| bb@.cells[q] == Cell::BlackBarrel && leaps_ahead(bb@.cells, q, 1, Cell::BlackPail) > 0,
        ),
        out@[24] == squares_with(|q: int| bb@.cells[q] == Cell::WhiteBarrel && gaps_ahead(bb@.cells, q, -1) > 0),
        out@[25] == squares_with(|q: int| bb@.cells[q] == Cell::BlackBarrel && gaps_ahead(bb@.cells, q, 1) > 0),
{
    assert(out@[13] == dense_num(bb, 13) && out@[14] == dense_num(bb, 14) && out@[16] == dense_num(bb, 16) && out@[17]
        == dense_num(bb, 17) && out@[22] == dense_num(bb, 22) && out@[23] == dense_num(bb, 23) && out@[24] == dense_num(
        bb,
        24,
    ) && out@[25] == dense_num(bb, 25));
    lemma_threats(bb, Player::White, |q: int| bb@.cells[q] == Cell::WhiteBarrel && q / 6 == 1, 36);
    lemma_threats(bb, Player::Black, |q: int| bb@.cells[q] == Cell::BlackBarrel && q / 6 == 4, 36);
    lemma_members_count(bb, Player::White, |q: int| bb@.cells[q] == Cell::WhiteBarrel);
    lemma_members_count(bb, Player::Black, |q: int| bb@.cells[q] == Cell::BlackBarrel);
    lemma_jumpers(
        bb,
        Player::White,
        |q: int| bb@.cells[q] == Cell::WhiteBarrel && leaps_ahead(bb@.cells, q, -1, Cell::WhitePail) > 0,
    );
    lemma_jumpers(
        bb,
        Player::Black,
        |q: int| bb@.cells[q] == Cell::BlackBarrel && leaps_ahead(bb@.cells, q, 1, Cell::BlackPail) > 0,
    );
    lemma_steppers(bb, Player::White, |q: int| bb@.cells[q] == Cell::WhiteBarrel && gaps_ahead(bb@.cells, q, -1) > 0);
    lemma_steppers(bb, Player::Black, |q: int| bb@.cells[q] == Cell::BlackBarrel && gaps_ahead(bb@.cells, q, 1) > 0);
}

proof fn lemma_threats(bb: BitBoard, p: Player, test: spec_fn(int) -> bool, n: nat)
    requires
        n <= 36,
        forall|q: int|
            0 <= q < 36 ==> #[trigger] test(q) == (bb@.cells[q] == barrel_of(p) && (if p == Player::White {
                q / 6 == 1
            } else {
                q / 6 == 4
            })),
    ensures
        at_dist_sum(bb@.cells, p, 1, n) == over(
            |q: int|
                if test(q) {
                    1
                } else {
                    0
                },
            n,
        ),
    decreases n,
{
    if n > 0 {
        lemma_threats(bb, p, test, (n - 1) as nat);
        assert(test(n - 1) == test(n - 1));
        let q = n - 1;
        assert(test(q) == (bb@.cells[q] == barrel_of(p) && (if p == Player::White {
            q / 6 == 1
        } else {
            q / 6 == 4
        })));
    }
}

proof fn lemma_mask_count(m: u64, test: spec_fn(int) -> bool, n: nat)
    requires
        n <= 64,
        forall|q: int| 0 <= q < 36 ==> on(m, q) == #[trigger] test(q),
        forall|q: int| 36 <= q < 64 ==> !on(m, q),
    ensures
        crate::bits::count_below(m, n) == over(
            |q: int|
                if test(q) {
                    1
                } else {
                    0
                },
            if n < 36 {
                n
            } else {
                36
            },
        ),
    decreases n,
{
    if n > 0 {
        lemma_mask_count(m, test, (n - 1) as nat);
        if n <= 36 {
            let q = n - 1;
            assert(on(m, q) == test(q));
        }
    }
}

proof fn lemma_members_count(bb: BitBoard, p: Player, test: spec_fn(int) -> bool)
    requires
        bb.wf(),
        forall|q: int| 0 <= q < 36 ==> #[trigger] test(q) == (bb@.cells[q] == barrel_of(p)),
    ensures
        members_from(bb.barrels_of(p), 0).len() == squares_with(test),
{
    let m = bb.barrels_of(p);
    assert forall|q: int| 0 <= q < 36 implies on(m, q) == #[trigger] test(q) by {
        bb.lemma_square(q);
        assert(bb@.cells[q] == bb.cell_at(q));
        assert(on(bb.barrels_of(p), q) == (bb.cell_at(q) == barrel_of(p)));
    }
    assert forall|q: int| 36 <= q < 64 implies !on(m, q) by {
        bb.lemma_square(q);
    }
    lemma_mask_count(m, test, 64);
    crate::features::lemma_members_len(m, 0);
}

/// A barrel jumps forward exactly if a jump leads ahead from its square.
#[verifier::spinoff_prover]
proof fn lemma_jumper(bb: BitBoard, p: Player, s: int)
    requires
        bb.wf(),
        0 <= s < 36,
    ensures
        jumper(bb, p, s) == (bb@.cells[s] == barrel_of(p) && leaps_ahead(
            bb@.cells,
            s,
            if p == Player::White {
                -1
            } else {
                1int
            },
            pail_of(p),
        ) > 0),
        stepper(bb, p, s) == (bb@.cells[s] == barrel_of(p) && gaps_ahead(
            bb@.cells,
            s,
            if p == Player::White {
                -1
            } else {
                1int
            },
        ) > 0),
{
    let up: int = if p == Player::White {
        -1
    } else {
        1
    };
    bb.lemma_square(s);
    assert(bb@.cells[s] == bb.cell_at(s));
    assert(on(bb.barrels_of(p), s) == (bb.cell_at(s) == barrel_of(p)));
    let enemy = bb.pail_mask_of(p.opponent());
    assert(up == forward_dir(p));
    lemma_forward(bb, p, s, up, -1);
    lemma_forward(bb, p, s, up, 0);
    lemma_forward(bb, p, s, up, 1);
    assert((exists|dc: int| -1 <= dc <= 1 && #[trigger] jumps_forward(s, bb.occupied, enemy, up, dc)) == (jumps_forward(
        s,
        bb.occupied,
        enemy,
        up,
        -1,
    ) || jumps_forward(s, bb.occupied, enemy, up, 0) || jumps_forward(s, bb.occupied, enemy, up, 1))) by {
        if exists|dc: int| -1 <= dc <= 1 && #[trigger] jumps_forward(s, bb.occupied, enemy, up, dc) {
            let dc = choose|dc: int| -1 <= dc <= 1 && #[trigger] jumps_forward(s, bb.occupied, enemy, up, dc);
            assert(dc == -1 || dc == 0 || dc == 1);
        }
    }
    assert((exists|dc: int| -1 <= dc <= 1 && #[trigger] steps_forward(s, bb.occupied, up, dc)) == (steps_forward(
        s,
        bb.occupied,
        up,
        -1,
    ) || steps_forward(s, bb.occupied, up, 0) || steps_forward(s, bb.occupied, up, 1))) by {
        if exists|dc: int| -1 <= dc <= 1 && #[trigger] steps_forward(s, bb.occupied, up, dc) {
            let dc = choose|dc: int| -1 <= dc <= 1 && #[trigger] steps_forward(s, bb.occupied, up, dc);
            assert(dc == -1 || dc == 0 || dc == 1);
        }
    }
}

#[verifier::spinoff_prover]
proof fn lemma_forward(bb: BitBoard, p: Player, s: int, up: int, dc: int)
    requires
        bb.wf(),
        0 <= s < 36,
        up == -1 || up == 1,
        -1 <= dc <= 1,
    ensures
        jumps_forward(s, bb.occupied, bb.pail_mask_of(p.opponent()), up, dc) == (leap(
            bb@.cells,
            s,
            up,
            dc,
            pail_of(p),
        ) == 1),
        steps_forward(s, bb.occupied, up, dc) == (gap(bb@.cells, s / 6 + up, s % 6 + dc) == 1),
{
    let r = s / 6;
    let c = s % 6;
    if 0 <= r + up < 6 && 0 <= c + dc < 6 {
        let t = 6 * (r + up) + c + dc;
        bb.lemma_square(t);
        assert(bb@.cells[t] == bb.cell_at(t));
        assert(on(bb.pail_mask_of(p.opponent()), t) == (bb.cell_at(t) == pail_of(p.opponent())));
    }
    if 0 <= r + 2 * up < 6 && 0 <= c + 2 * dc < 6 {
        let t = 6 * (r + 2 * up) + c + 2 * dc;
        bb.lemma_square(t);
        assert(bb@.cells[t] == bb.cell_at(t));
    }
}

proof fn lemma_jumpers(bb: BitBoard, p: Player, test: spec_fn(int) -> bool)
    requires
        bb.wf(),
        forall|q: int|
            0 <= q < 36 ==> #[trigger] test(q) == (bb@.cells[q] == barrel_of(p) && leaps_ahead(
                bb@.cells,
                q,
                if p == Player::White {
                    -1
                } else {
                    1int
                },
                pail_of(p),
            ) > 0),
    ensures
        jumper_count(bb, p, 64) == squares_with(test),
{
    lemma_jumpers_below(bb, p, test, 64);
}

proof fn lemma_jumpers_below(bb: BitBoard, p: Player, test: spec_fn(int) -> bool, n: nat)
    requires
        bb.wf(),
        n <= 64,
        forall|q: int|
            0 <= q < 36 ==> #[trigger] test(q) == (bb@.cells[q] == barrel_of(p) && leaps_ahead(
                bb@.cells,
                q,
                if p == Player::White {
                    -1
                } else {
                    1int
                },
                pail_of(p),
            ) > 0),
    ensures
        jumper_count(bb, p, n) == over(
            |q: int|
                if test(q) {
                    1
                } else {
                    0
                },
            if n < 36 {
                n
            } else {
                36
            },
        ),
    decreases n,
{
    if n > 0 {
        lemma_jumpers_below(bb, p, test, (n - 1) as nat);
        let q = n - 1;
        if q < 36 {
            lemma_jumper(bb, p, q);
            assert(test(q) == test(q));
        } else {
            bb.lemma_square(q);
        }
    }
}

proof fn lemma_steppers(bb: BitBoard, p: Player, test: spec_fn(int) -> bool)
    requires
        bb.wf(),
        forall|q: int|
            0 <= q < 36 ==> #[trigger] test(q) == (bb@.cells[q] == barrel_of(p) && gaps_ahead(
                bb@.cells,
                q,
                if p == Player::White {
                    -1
                } else {
                    1int
                },
            ) > 0),
    ensures
        stepper_count(bb, p, 64) == squares_with(test),
{
    lemma_steppers_below(bb, p, test, 64);
}

proof fn lemma_steppers_below(bb: BitBoard, p: Player, test: spec_fn(int) -> bool, n: nat)
    requires
        bb.wf(),
        n <= 64,
        forall|q: int|
            0 <= q < 36 ==> #[trigger] test(q) == (bb@.cells[q] == barrel_of(p) && gaps_ahead(
                bb@.cells,
                q,
                if p == Player::White {
                    -1
                } else {
                    1int
                },
            ) > 0),
    ensures
        stepper_count(bb, p, n) == over(
            |q: int|
                if test(q) {
                    1
                } else {
                    0
                },
            if n < 36 {
                n
            } else {
                36
            },
        ),
    decreases n,
{
    if n > 0 {
        lemma_steppers_below(bb, p, test, (n - 1) as nat);
        let q = n - 1;
        if q < 36 {
            lemma_jumper(bb, p, q);
            assert(test(q) == test(q));
        } else {
            bb.lemma_square(q);
        }
    }
}

/// The inputs that pails give: how many barrels of the other side each of them
/// holds up in its column.
#[verifier::spinoff_prover]
pub proof fn law_dense_blocks(bb: BitBoard, race: RaceTable, out: [i16; 32], white: Option<int>, black: Option<int>)
    requires
        stands(bb@.cells, Cell::WhitePail, white),
        stands(bb@.cells, Cell::BlackPail, black),
        call_ensures(compute_dense, (&bb, &race, 28usize), out),
    ensures
        out@[18] == held_up(bb@.cells, white, Cell::BlackBarrel, 1, 0),
        out@[19] == held_up(bb@.cells, black, Cell::WhiteBarrel, -1, 0),
{
    assert(out@[18] == dense_num(bb, 18) && out@[19] == dense_num(bb, 19));
    lemma_blocked(bb, Player::White, white);
    lemma_blocked(bb, Player::Black, black);
}

#[verifier::spinoff_prover]
proof fn lemma_blocked(bb: BitBoard, p: Player, at: Option<int>)
    requires
        stands(bb@.cells, pail_of(p), at),
    ensures
        blocked_by(bb, p) == held_up(
            bb@.cells,
            at,
            barrel_of(p.opponent()),
            if p == Player::White {
                1
            } else {
                -1int
            },
            0,
        ),
{
    let w = count_weights();
    let up: int = if p == Player::White {
        1
    } else {
        -1
    };
    lemma_pail_worth(w, bb@.cells, p, at);
    lemma_stands(bb@.cells, p, pail_of(p), at);
    let a = central(
        at,
        if p == Player::White {
            2
        } else {
            3
        },
    );
    let b = held_up(bb@.cells, at, barrel_of(p.opponent()), up, 0);
    let c = held_up(bb@.cells, at, barrel_of(p.opponent()), up, 1);
    assert(a * w.center_pail + b * w.blocking + c * w.adj_blocking == b) by (nonlinear_arith)
        requires
            w.center_pail == 0,
            w.blocking == 1,
            w.adj_blocking == 0,
    ;
    assert(pail_score(w, bb@.cells, p) == b);
}

/// The inputs of the race are the moves that each side alone needs, up to eight.
pub proof fn law_dense_races(bb: BitBoard, race: RaceTable, out: [i16; 32], wd: u16, bd: u16)
    requires
        bb.wf(),
        call_ensures(RaceTable::side_distance, (&race, &bb, Player::White), wd),
        call_ensures(RaceTable::side_distance, (&race, &bb, Player::Black), bd),
        call_ensures(compute_dense, (&bb, &race, 28usize), out),
    ensures
        out@[20] == if wd < 8 {
            wd as int
        } else {
            8
        },
        out@[21] == if bd < 8 {
            bd as int
        } else {
            8
        },
{
    assert(out@[20] == dense_num(bb, 20) && out@[21] == dense_num(bb, 21));
    lemma_races_of(bb, wd, bd);
}

/// The first four inputs are the rows that white's barrels have to go, the next
/// four those that black's have to go, the nearest first: each stands for a barrel,
/// each barrel has one, and they rise as far as there are barrels.
#[verifier::spinoff_prover]
pub proof fn law_dense_distances(bb: BitBoard, race: RaceTable, out: [i16; 32], s: int, k: int)
    requires
        bb.wf(),
        0 <= s < 36,
        0 <= k < 4,
        call_ensures(compute_dense, (&bb, &race, 28usize), out),
    ensures
        bb@.cells[s] == Cell::WhiteBarrel ==> exists|i: int| 0 <= i < 4 && #[trigger] out@[i] == s / 6,
        bb@.cells[s] == Cell::BlackBarrel ==> exists|i: int| 0 <= i < 4 && #[trigger] out@[4 + i] == 5 - s / 6,
        out@[k] != 0 ==> exists|q: int| 0 <= q < 36 && #[trigger] bb@.cells[q] == Cell::WhiteBarrel && q / 6 == out@[k],
        out@[4 + k] != 0 ==> exists|q: int|
            0 <= q < 36 && #[trigger] bb@.cells[q] == Cell::BlackBarrel && 5 - q / 6 == out@[4 + k],
        k < 3 && out@[k + 1] != 0 ==> out@[k] <= out@[k + 1],
        k < 3 && out@[4 + k + 1] != 0 ==> out@[4 + k] <= out@[4 + k + 1],
{
    let w = members_from(bb.white_barrels, 0);
    let b = members_from(bb.black_barrels, 0);
    assert(out@[k] == dense_num(bb, k) && out@[4 + k] == dense_num(bb, 4 + k));
    assert(k < 3 ==> out@[k + 1] == dense_num(bb, k + 1) && out@[4 + k + 1] == dense_num(bb, 4 + k + 1));
    crate::net_laws::lemma_lists_side(bb, Player::White, s);
    crate::net_laws::lemma_lists_side(bb, Player::Black, s);
    crate::phase::lemma_barrels_popcount(bb, Player::White);
    crate::phase::lemma_barrels_popcount(bb, Player::Black);
    crate::features::lemma_members_len(bb.white_barrels, 0);
    crate::features::lemma_members_len(bb.black_barrels, 0);
    assert(w.len() <= 4 && b.len() <= 4);
    if bb@.cells[s] == Cell::WhiteBarrel {
        let i = choose|i: int| 0 <= i < w.len() && w[i] == s;
        assert(out@[i] == dense_num(bb, i));
        assert(out@[i] == s / 6);
    }
    if bb@.cells[s] == Cell::BlackBarrel {
        let j = choose|j: int| 0 <= j < b.len() && b[j] == s;
        let i = b.len() - 1 - j;
        assert(out@[4 + i] == dense_num(bb, 4 + i));
        assert(out@[4 + i] == 5 - s / 6);
    }
    if out@[k] != 0 {
        let q = w[k];
        crate::net_laws::lemma_lists_side(bb, Player::White, q);
        assert(w.contains(q));
        assert(bb@.cells[q] == Cell::WhiteBarrel);
    }
    if out@[4 + k] != 0 {
        let q = b[b.len() - 1 - k];
        crate::net_laws::lemma_lists_side(bb, Player::Black, q);
        assert(b.contains(q));
        assert(bb@.cells[q] == Cell::BlackBarrel);
    }
    if k < 3 {
        if k + 1 < w.len() {
            lemma_rising_members(bb.white_barrels, 0, k, k + 1);
        }
        if k + 1 < b.len() {
            lemma_rising_members(bb.black_barrels, 0, b.len() - 2 - k, b.len() - 1 - k);
        }
    }
}

proof fn lemma_rising_members(m: u64, from: int, i: int, j: int)
    requires
        0 <= from,
        0 <= i < j < members_from(m, from).len(),
    ensures
        members_from(m, from)[i] < members_from(m, from)[j],
    decreases 64 - from,
{
    if from < 64 {
        if on(m, from) {
            crate::features::lemma_member(m, from + 1, j - 1);
            if i > 0 {
                lemma_rising_members(m, from + 1, i - 1, j - 1);
            }
        } else {
            lemma_rising_members(m, from + 1, i, j);
        }
    }
}

/// A fraction is told in 128ths to the nearest, whatever its sign: twice the
/// distance times the denominator is at most one denominator.
pub proof fn law_fractions_are_rounded(num: i16, den: i16, r: i16)
    requires
        1 <= den <= 60,
        -den <= num <= den,
        call_ensures(quantize, (num, den), r),
    ensures
        -den <= 2 * (r * den - 128 * num) <= den,
        num > 0 ==> 2 * (r * den - 128 * num) > -den,
        num < 0 ==> 2 * (r * den - 128 * num) < den,
{
    let d = den as int;
    let n = if num >= 0 {
        num as int
    } else {
        -num
    };
    let a = 256 * n + d;
    let q = a / (2 * d);
    vstd::arithmetic::div_mod::lemma_fundamental_div_mod(a, 2 * d);
    let m = a % (2 * d);
    assert(0 <= m < 2 * d);
    assert(2 * d * q == 2 * (q * d)) by (nonlinear_arith);
    assert((-q) * d == -(q * d)) by (nonlinear_arith);
    assert(r == q || (num < 0 && r == -q));
}

} // verus!
