//! The handcrafted evaluation sees both sides alike: the colour mirror of a
//! position is worth the opposite.
use vstd::prelude::*;
use crate::bitboard::BitBoard;
use crate::bits::{lemma_mask_ext, on};
use crate::board::{Cell, Player};
use crate::heuristic::{
    ahead, at_dist_sum, free_dir, goal_dist, heuristic_of, heuristic_sum, hostile, is_passed, is_trapped, jumps_of,
    jumps_sum, lemma_no_pail, lemma_race_pair_unique, mobility_of, mobility_sum, one_if, passed_sum, progress_sum,
    quarter, race_pair, races_of, trapped_sum, EvalWeights,
};
use crate::mirror::{flip, flip_dir, lemma_flip, lemma_flip_ray, swap_cell};
use crate::packed::is_mirror_of;
use crate::race::{flipped, is_answer, lemma_distance};
use crate::rules::{barrel_of, hop, jumpable, GameState};
use crate::squares::{col_of, on_board, ray, row_of};
use crate::symmetry::{law_mirror_wf, lemma_mirror_masks};

verus! {

/// The sum of a term over the squares below `n`.
spec fn total(f: spec_fn(int) -> int, n: nat) -> int
    decreases n,
{
    if n == 0 {
        0
    } else {
        total(f, (n - 1) as nat) + f(n - 1)
    }
}

proof fn lemma_total_same(f: spec_fn(int) -> int, g: spec_fn(int) -> int, n: nat)
    requires
        forall|s: int| 0 <= s < n ==> #[trigger] f(s) == g(s),
    ensures
        total(f, n) == total(g, n),
    decreases n,
{
    if n > 0 {
        lemma_total_same(f, g, (n - 1) as nat);
        assert(f(n - 1) == g(n - 1));
    }
}

/// One row of a sum.
proof fn lemma_total_row(f: spec_fn(int) -> int, r: int)
    requires
        0 <= r < 6,
    ensures
        total(f, (6 * r + 6) as nat) == total(f, (6 * r) as nat) + f(6 * r) + f(6 * r + 1) + f(6 * r + 2) + f(6 * r + 3) + f(
            6 * r + 4,
        ) + f(6 * r + 5),
{
    reveal_with_fuel(total, 7);
}

/// Summing the rows in the opposite order gives the same.
proof fn lemma_total_flip(f: spec_fn(int) -> int)
    ensures
        total(|s: int| f(flip(s)), 36) == total(f, 36),
{
    let g = |s: int| f(flip(s));
    lemma_total_row(f, 0);
    lemma_total_row(f, 1);
    lemma_total_row(f, 2);
    lemma_total_row(f, 3);
    lemma_total_row(f, 4);
    lemma_total_row(f, 5);
    lemma_total_row(g, 0);
    lemma_total_row(g, 1);
    lemma_total_row(g, 2);
    lemma_total_row(g, 3);
    lemma_total_row(g, 4);
    lemma_total_row(g, 5);
    assert(total(f, 0) == 0 && total(g, 0) == 0);
    assert forall|r: int, c: int| 0 <= r < 6 && 0 <= c < 6 implies flip(#[trigger] (6 * r + c)) == 6 * (5 - r) + c by {
        assert((6 * r + c) / 6 == r && (6 * r + c) % 6 == c);
    }
    assert forall|s: int| #[trigger] g(s) == f(flip(s)) by {}
    lemma_rows_opposite(f, g, 0);
    lemma_rows_opposite(f, g, 1);
    lemma_rows_opposite(f, g, 2);
    lemma_rows_opposite(f, g, 3);
    lemma_rows_opposite(f, g, 4);
    lemma_rows_opposite(f, g, 5);
}

proof fn lemma_rows_opposite(f: spec_fn(int) -> int, g: spec_fn(int) -> int, r: int)
    requires
        0 <= r < 6,
        forall|s: int| #[trigger] g(s) == f(flip(s)),
    ensures
        g(6 * r) == f(6 * (5 - r)),
        g(6 * r + 1) == f(6 * (5 - r) + 1),
        g(6 * r + 2) == f(6 * (5 - r) + 2),
        g(6 * r + 3) == f(6 * (5 - r) + 3),
        g(6 * r + 4) == f(6 * (5 - r) + 4),
        g(6 * r + 5) == f(6 * (5 - r) + 5),
{
}

/// A term of one side on one square.
spec fn progress_at(c: Seq<Cell>, p: Player, s: int) -> int {
    if c[s] == barrel_of(p) {
        5 - goal_dist(p, s)
    } else {
        0
    }
}

spec fn dist_at(c: Seq<Cell>, p: Player, k: int, s: int) -> int {
    one_if(c[s] == barrel_of(p) && goal_dist(p, s) == k)
}

spec fn passed_at(c: Seq<Cell>, p: Player, s: int) -> int {
    one_if(c[s] == barrel_of(p) && is_passed(c, p, s))
}

spec fn trapped_at(c: Seq<Cell>, p: Player, s: int) -> int {
    one_if(c[s] == barrel_of(p) && is_trapped(c, s))
}

spec fn mobility_at(c: Seq<Cell>, p: Player, s: int) -> int {
    if c[s] == barrel_of(p) {
        mobility_of(c, p, s, 8) as int
    } else {
        0
    }
}

spec fn jumps_at(c: Seq<Cell>, p: Player, s: int) -> int {
    if c[s] == barrel_of(p) {
        jumps_of(c, p, s, 8) as int
    } else {
        0
    }
}

proof fn lemma_sums(c: Seq<Cell>, p: Player, n: nat)
    ensures
        progress_sum(c, p, n) == total(|s: int| progress_at(c, p, s), n),
        at_dist_sum(c, p, 1, n) == total(|s: int| dist_at(c, p, 1, s), n),
        at_dist_sum(c, p, 2, n) == total(|s: int| dist_at(c, p, 2, s), n),
        passed_sum(c, p, n) == total(|s: int| passed_at(c, p, s), n),
        trapped_sum(c, p, n) == total(|s: int| trapped_at(c, p, s), n),
        mobility_sum(c, p, n) == total(|s: int| mobility_at(c, p, s), n),
        jumps_sum(c, p, n) == total(|s: int| jumps_at(c, p, s), n),
    decreases n,
{
    if n > 0 {
        lemma_sums(c, p, (n - 1) as nat);
    }
}

/// `m` is the colour mirror of `c`.
spec fn mirrors(m: Seq<Cell>, c: Seq<Cell>) -> bool {
    forall|t: int| on_board(t) ==> #[trigger] m[t] == swap_cell(c[flip(t)])
}

proof fn lemma_square_terms(m: Seq<Cell>, c: Seq<Cell>, p: Player, s: int)
    requires
        mirrors(m, c),
        on_board(s),
    ensures
        progress_at(m, p, s) == progress_at(c, p.opponent(), flip(s)),
        dist_at(m, p, 1, s) == dist_at(c, p.opponent(), 1, flip(s)),
        dist_at(m, p, 2, s) == dist_at(c, p.opponent(), 2, flip(s)),
        passed_at(m, p, s) == passed_at(c, p.opponent(), flip(s)),
        trapped_at(m, p, s) == trapped_at(c, p.opponent(), flip(s)),
        mobility_at(m, p, s) == mobility_at(c, p.opponent(), flip(s)),
        jumps_at(m, p, s) == jumps_at(c, p.opponent(), flip(s)),
{
    lemma_flip(s);
    assert(m[s] == swap_cell(c[flip(s)]));
    lemma_passed(m, c, p, s);
    lemma_dirs(m, c, p, s);
}

proof fn lemma_passed(m: Seq<Cell>, c: Seq<Cell>, p: Player, s: int)
    requires
        mirrors(m, c),
        on_board(s),
    ensures
        is_passed(m, p, s) == is_passed(c, p.opponent(), flip(s)),
{
    let q = p.opponent();
    lemma_flip(s);
    if is_passed(m, p, s) {
        assert forall|t: int| on_board(t) && col_of(t) == col_of(flip(s)) && ahead(q, t, flip(s)) implies !hostile(
            #[trigger] c[t],
            q,
        ) by {
            lemma_flip(t);
            assert(m[flip(t)] == swap_cell(c[flip(flip(t))]));
            assert(!hostile(m[flip(t)], p));
        }
    }
    if is_passed(c, q, flip(s)) {
        assert forall|t: int| on_board(t) && col_of(t) == col_of(s) && ahead(p, t, s) implies !hostile(
            #[trigger] m[t],
            p,
        ) by {
            lemma_flip(t);
            assert(!hostile(c[flip(t)], q));
        }
    }
}

proof fn lemma_dir(m: Seq<Cell>, c: Seq<Cell>, p: Player, s: int, d: int)
    requires
        mirrors(m, c),
        on_board(s),
        0 <= d < 8,
    ensures
        0 <= flip_dir(d) < 8,
        free_dir(m, s, d) == free_dir(c, flip(s), flip_dir(d)),
        free_dir(m, s, d) ==> ahead(p, ray(s, d, 1), s) == ahead(p.opponent(), ray(flip(s), flip_dir(d), 1), flip(s)),
        hop(m, p, s, d) == hop(c, p.opponent(), flip(s), flip_dir(d)),
        hop(m, p, s, d) ==> ahead(p, ray(s, d, 2), s) == ahead(p.opponent(), ray(flip(s), flip_dir(d), 2), flip(s)),
{
    lemma_flip(s);
    lemma_flip_ray(s, d, 1);
    lemma_flip_ray(s, d, 2);
    if ray(s, d, 1) >= 0 {
        let t = ray(s, d, 1);
        lemma_flip(t);
        assert(m[t] == swap_cell(c[flip(t)]));
    }
    if ray(s, d, 2) >= 0 {
        let t = ray(s, d, 2);
        lemma_flip(t);
        assert(m[t] == swap_cell(c[flip(t)]));
    }
}

/// An empty neighbour ahead, and a jump ahead, in one direction.
#[verifier::opaque]
spec fn steps_ahead(c: Seq<Cell>, p: Player, s: int, d: int) -> nat {
    if free_dir(c, s, d) && ahead(p, ray(s, d, 1), s) {
        1
    } else {
        0
    }
}

#[verifier::opaque]
spec fn hops_ahead(c: Seq<Cell>, p: Player, s: int, d: int) -> nat {
    if hop(c, p, s, d) && ahead(p, ray(s, d, 2), s) {
        1
    } else {
        0
    }
}

proof fn lemma_mobility_parts(c: Seq<Cell>, p: Player, s: int)
    ensures
        mobility_of(c, p, s, 8) == steps_ahead(c, p, s, 0) + steps_ahead(c, p, s, 1) + steps_ahead(c, p, s, 2) + steps_ahead(
            c,
            p,
            s,
            3,
        ) + steps_ahead(c, p, s, 4) + steps_ahead(c, p, s, 5) + steps_ahead(c, p, s, 6) + steps_ahead(c, p, s, 7),
{
    assert forall|n: nat| n > 0 implies #[trigger] mobility_of(c, p, s, n) == mobility_of(c, p, s, (n - 1) as nat)
        + steps_ahead(c, p, s, n - 1) by {
        reveal(steps_ahead);
    }
    assert(mobility_of(c, p, s, 0) == 0);
    assert(mobility_of(c, p, s, 1) == steps_ahead(c, p, s, 0));
    assert(mobility_of(c, p, s, 2) == mobility_of(c, p, s, 1) + steps_ahead(c, p, s, 1));
    assert(mobility_of(c, p, s, 3) == mobility_of(c, p, s, 2) + steps_ahead(c, p, s, 2));
    assert(mobility_of(c, p, s, 4) == mobility_of(c, p, s, 3) + steps_ahead(c, p, s, 3));
    assert(mobility_of(c, p, s, 5) == mobility_of(c, p, s, 4) + steps_ahead(c, p, s, 4));
    assert(mobility_of(c, p, s, 6) == mobility_of(c, p, s, 5) + steps_ahead(c, p, s, 5));
    assert(mobility_of(c, p, s, 7) == mobility_of(c, p, s, 6) + steps_ahead(c, p, s, 6));
    assert(mobility_of(c, p, s, 8) == mobility_of(c, p, s, 7) + steps_ahead(c, p, s, 7));
}

proof fn lemma_jumps_parts(c: Seq<Cell>, p: Player, s: int)
    ensures
        jumps_of(c, p, s, 8) == hops_ahead(c, p, s, 0) + hops_ahead(c, p, s, 1) + hops_ahead(c, p, s, 2) + hops_ahead(
            c,
            p,
            s,
            3,
        ) + hops_ahead(c, p, s, 4) + hops_ahead(c, p, s, 5) + hops_ahead(c, p, s, 6) + hops_ahead(c, p, s, 7),
{
    assert forall|n: nat| n > 0 implies #[trigger] jumps_of(c, p, s, n) == jumps_of(c, p, s, (n - 1) as nat) + hops_ahead(
        c,
        p,
        s,
        n - 1,
    ) by {
        reveal(hops_ahead);
    }
    assert(jumps_of(c, p, s, 0) == 0);
    assert(jumps_of(c, p, s, 1) == hops_ahead(c, p, s, 0));
    assert(jumps_of(c, p, s, 2) == jumps_of(c, p, s, 1) + hops_ahead(c, p, s, 1));
    assert(jumps_of(c, p, s, 3) == jumps_of(c, p, s, 2) + hops_ahead(c, p, s, 2));
    assert(jumps_of(c, p, s, 4) == jumps_of(c, p, s, 3) + hops_ahead(c, p, s, 3));
    assert(jumps_of(c, p, s, 5) == jumps_of(c, p, s, 4) + hops_ahead(c, p, s, 4));
    assert(jumps_of(c, p, s, 6) == jumps_of(c, p, s, 5) + hops_ahead(c, p, s, 5));
    assert(jumps_of(c, p, s, 7) == jumps_of(c, p, s, 6) + hops_ahead(c, p, s, 6));
    assert(jumps_of(c, p, s, 8) == jumps_of(c, p, s, 7) + hops_ahead(c, p, s, 7));
}

proof fn lemma_ahead(m: Seq<Cell>, c: Seq<Cell>, p: Player, s: int, d: int)
    requires
        mirrors(m, c),
        on_board(s),
        0 <= d < 8,
    ensures
        steps_ahead(m, p, s, d) == steps_ahead(c, p.opponent(), flip(s), flip_dir(d)),
        hops_ahead(m, p, s, d) == hops_ahead(c, p.opponent(), flip(s), flip_dir(d)),
{
    lemma_dir(m, c, p, s, d);
    reveal(steps_ahead);
    reveal(hops_ahead);
}

proof fn lemma_dirs(m: Seq<Cell>, c: Seq<Cell>, p: Player, s: int)
    requires
        mirrors(m, c),
        on_board(s),
    ensures
        is_trapped(m, s) == is_trapped(c, flip(s)),
        mobility_of(m, p, s, 8) == mobility_of(c, p.opponent(), flip(s), 8),
        jumps_of(m, p, s, 8) == jumps_of(c, p.opponent(), flip(s), 8),
{
    let q = p.opponent();
    lemma_mobility_parts(m, p, s);
    lemma_mobility_parts(c, q, flip(s));
    lemma_jumps_parts(m, p, s);
    lemma_jumps_parts(c, q, flip(s));
    lemma_ahead(m, c, p, s, 0);
    lemma_ahead(m, c, p, s, 1);
    lemma_ahead(m, c, p, s, 2);
    lemma_ahead(m, c, p, s, 3);
    lemma_ahead(m, c, p, s, 4);
    lemma_ahead(m, c, p, s, 5);
    lemma_ahead(m, c, p, s, 6);
    lemma_ahead(m, c, p, s, 7);
    lemma_trapped(m, c, p, s);
}

proof fn lemma_trapped(m: Seq<Cell>, c: Seq<Cell>, p: Player, s: int)
    requires
        mirrors(m, c),
        on_board(s),
    ensures
        is_trapped(m, s) == is_trapped(c, flip(s)),
{
    if is_trapped(m, s) {
        assert forall|d: int| 0 <= d < 8 implies !#[trigger] free_dir(c, flip(s), d) by {
            lemma_dir(m, c, p, s, flip_dir(d));
            assert(flip_dir(flip_dir(d)) == d);
            assert(!free_dir(m, s, flip_dir(d)));
        }
    }
    if is_trapped(c, flip(s)) {
        assert forall|d: int| 0 <= d < 8 implies !#[trigger] free_dir(m, s, d) by {
            lemma_dir(m, c, p, s, d);
        }
    }
}

/// The terms of one side are those of the other in the mirror.
proof fn lemma_side(m: Seq<Cell>, c: Seq<Cell>, p: Player)
    requires
        mirrors(m, c),
    ensures
        progress_sum(m, p, 36) == progress_sum(c, p.opponent(), 36),
        at_dist_sum(m, p, 1, 36) == at_dist_sum(c, p.opponent(), 1, 36),
        at_dist_sum(m, p, 2, 36) == at_dist_sum(c, p.opponent(), 2, 36),
        passed_sum(m, p, 36) == passed_sum(c, p.opponent(), 36),
        trapped_sum(m, p, 36) == trapped_sum(c, p.opponent(), 36),
        mobility_sum(m, p, 36) == mobility_sum(c, p.opponent(), 36),
        jumps_sum(m, p, 36) == jumps_sum(c, p.opponent(), 36),
{
    let q = p.opponent();
    lemma_sums(m, p, 36);
    lemma_sums(c, q, 36);
    assert forall|s: int| 0 <= s < 36 implies progress_at(m, p, s) == progress_at(c, q, #[trigger] flip(s)) && dist_at(
        m,
        p,
        1,
        s,
    ) == dist_at(c, q, 1, flip(s)) && dist_at(m, p, 2, s) == dist_at(c, q, 2, flip(s)) && passed_at(m, p, s) == passed_at(
        c,
        q,
        flip(s),
    ) && trapped_at(m, p, s) == trapped_at(c, q, flip(s)) && mobility_at(m, p, s) == mobility_at(c, q, flip(s))
        && jumps_at(m, p, s) == jumps_at(c, q, flip(s)) by {
        lemma_square_terms(m, c, p, s);
    }
    lemma_sum_flip(|s: int| progress_at(m, p, s), |s: int| progress_at(c, q, s));
    lemma_sum_flip(|s: int| dist_at(m, p, 1, s), |s: int| dist_at(c, q, 1, s));
    lemma_sum_flip(|s: int| dist_at(m, p, 2, s), |s: int| dist_at(c, q, 2, s));
    lemma_sum_flip(|s: int| passed_at(m, p, s), |s: int| passed_at(c, q, s));
    lemma_sum_flip(|s: int| trapped_at(m, p, s), |s: int| trapped_at(c, q, s));
    lemma_sum_flip(|s: int| mobility_at(m, p, s), |s: int| mobility_at(c, q, s));
    lemma_sum_flip(|s: int| jumps_at(m, p, s), |s: int| jumps_at(c, q, s));
}

proof fn lemma_sum_flip(f: spec_fn(int) -> int, g: spec_fn(int) -> int)
    requires
        forall|s: int| 0 <= s < 36 ==> #[trigger] f(s) == g(flip(s)),
    ensures
        total(f, 36) == total(g, 36),
{
    let h = |s: int| g(flip(s));
    lemma_total_same(f, h, 36);
    lemma_total_flip(g);
}

/// The race distances change sides in the mirror.
proof fn lemma_races(m: BitBoard, b: BitBoard)
    requires
        b.wf(),
        is_mirror_of(m, b),
    ensures
        races_of(m).0 == races_of(b).1,
        races_of(m).1 == races_of(b).0,
{
    law_mirror_wf(m, b);
    assert forall|s: int| #[trigger] on(m.white_barrels, s) == (on_board(s) && on(b.black_barrels, flip(s))) by {
        m.lemma_square(s);
        if on_board(s) {
            lemma_mirror_masks(m, b, s);
        }
    }
    assert forall|s: int| #[trigger] on(m.black_barrels, s) == (on_board(s) && on(b.white_barrels, flip(s))) by {
        m.lemma_square(s);
        if on_board(s) {
            lemma_mirror_masks(m, b, s);
        }
    }
    assert(flipped(m.white_barrels, b.black_barrels));
    assert(m.white_barrels_off_board as int == m@.white_off && m.black_barrels_off_board as int == m@.black_off);
    assert(b.white_barrels_off_board as int == b@.white_off && b.black_barrels_off_board as int == b@.black_off);
    let wd = lemma_distance(b.white_barrels, b.white_barrels_off_board as int);
    let bd = lemma_distance(m.white_barrels, m.white_barrels_off_board as int);
    assert forall|k: u64| #[trigger] flipped(k, b.black_barrels) implies k == m.white_barrels by {
        assert forall|s: int| 0 <= s < 64 implies on(k, s) == on(m.white_barrels, s) by {}
        lemma_mask_ext(k, m.white_barrels);
    }
    assert forall|k: u64| #[trigger] flipped(k, m.black_barrels) implies k == b.white_barrels by {
        assert forall|s: int| 0 <= s < 64 implies on(k, s) == on(b.white_barrels, s) by {
            b.lemma_square(s);
            if on_board(s) {
                lemma_flip(s);
            }
        }
        lemma_mask_ext(k, b.white_barrels);
    }
    let x = (wd, bd);
    let y = (bd, wd);
    assert(race_pair(b, x.0, x.1));
    assert(race_pair(m, y.0, y.1));
    assert(race_pair(b, races_of(b).0, races_of(b).1));
    assert(race_pair(m, races_of(m).0, races_of(m).1));
    lemma_race_pair_unique(b, races_of(b).0, races_of(b).1, wd, bd);
    lemma_race_pair_unique(m, races_of(m).0, races_of(m).1, bd, wd);
}

proof fn lemma_negated_sum(w: EvalWeights, s: GameState, t: GameState, wd: int, bd: int)
    requires
        mirrors(t.cells, s.cells),
        t.white_scored == s.black_scored,
        t.black_scored == s.white_scored,
        forall|k: int| 0 <= k < 36 ==> #[trigger] s.cells[k] != Cell::WhitePail && s.cells[k] != Cell::BlackPail,
        forall|k: int| 0 <= k < 36 ==> #[trigger] t.cells[k] != Cell::WhitePail && t.cells[k] != Cell::BlackPail,
    ensures
        heuristic_sum(w, t, bd, wd) == -heuristic_sum(w, s, wd, bd),
{
    lemma_side(t.cells, s.cells, Player::White);
    lemma_side(t.cells, s.cells, Player::Black);
    lemma_no_pail(s.cells, Player::White, 0);
    lemma_no_pail(s.cells, Player::Black, 0);
    lemma_no_pail(t.cells, Player::White, 0);
    lemma_no_pail(t.cells, Player::Black, 0);
    let a = at_dist_sum(s.cells, Player::White, 1, 36) - at_dist_sum(s.cells, Player::Black, 1, 36);
    let e = w.eg_threat as int;
    let n = s.white_scored + s.black_scored;
    assert((-a) * e * n == -(a * e * n)) by (nonlinear_arith);
    assert(quarter(-(a * e * n)) == -quarter(a * e * n));
    lemma_odd(s.white_scored - s.black_scored, w.scored as int);
    lemma_odd(crate::heuristic::accel(s.white_scored) - crate::heuristic::accel(s.black_scored), w.score_accel as int);
    lemma_odd(progress_sum(s.cells, Player::White, 36) - progress_sum(s.cells, Player::Black, 36), w.progress as int);
    lemma_odd(a, w.threat as int);
    lemma_odd(at_dist_sum(s.cells, Player::White, 2, 36) - at_dist_sum(s.cells, Player::Black, 2, 36), w.threat2 as int);
    lemma_odd(mobility_sum(s.cells, Player::White, 36) - mobility_sum(s.cells, Player::Black, 36), w.mobility as int);
    lemma_odd(passed_sum(s.cells, Player::White, 36) - passed_sum(s.cells, Player::Black, 36), w.passed as int);
    lemma_odd(trapped_sum(s.cells, Player::White, 36) - trapped_sum(s.cells, Player::Black, 36), w.trapped as int);
    lemma_odd(jumps_sum(s.cells, Player::White, 36) - jumps_sum(s.cells, Player::Black, 36), w.jump as int);
    lemma_odd(bd - wd, w.race as int);
}

proof fn lemma_odd(x: int, w: int)
    ensures
        (-x) * w == -(x * w),
{
    assert((-x) * w == -(x * w)) by (nonlinear_arith);
}

/// The colour mirror of a position without pails is worth the opposite, whatever
/// the weights, unless all barrels of both sides are home.
pub proof fn law_mirrored_evaluation(w: EvalWeights, m: BitBoard, b: BitBoard)
    requires
        b.wf(),
        is_mirror_of(m, b),
        b.white_pail == 0,
        b.black_pail == 0,
        !(b.white_scored == 4 && b.black_scored == 4),
    ensures
        heuristic_of(w, m) == -heuristic_of(w, b),
{
    lemma_races(m, b);
    let s = b@;
    let t = m@;
    assert(m.white_scored as int == t.white_scored && m.black_scored as int == t.black_scored);
    assert(b.white_scored as int == s.white_scored && b.black_scored as int == s.black_scored);
    assert forall|k: int| on_board(k) implies #[trigger] t.cells[k] == swap_cell(s.cells[flip(k)]) by {
        lemma_flip(k);
    }
    assert forall|k: int| 0 <= k < 36 implies #[trigger] s.cells[k] != Cell::WhitePail && s.cells[k] != Cell::BlackPail by {
        b.lemma_square(k);
        crate::bits::lemma_empty(b.white_pail);
        crate::bits::lemma_empty(b.black_pail);
        assert(s.cells[k] == b.cell_at(k));
    }
    assert forall|k: int| 0 <= k < 36 implies #[trigger] t.cells[k] != Cell::WhitePail && t.cells[k] != Cell::BlackPail by {
        lemma_flip(k);
        assert(s.cells[flip(k)] != Cell::WhitePail);
    }
    lemma_negated_sum(w, s, t, races_of(b).0 as int, races_of(b).1 as int);
}

} // verus!
