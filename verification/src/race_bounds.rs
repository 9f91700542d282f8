//! How short a race can be.
use vstd::prelude::*;
use crate::bits::{count_below, group_has, on, popcount};
use crate::board::{Cell, Player};
use crate::configs::{all_allowed, allowed};
use crate::race::{home_in, is_race_distance, race_game, race_state, race_step, shows, UNREACHED};
use crate::rules::{jump_chain, jump_ok, lemma_ray, stop, Action};
use crate::squares::{on_board, ray, row_of};

verus! {

/// The least number of moves that the barrels below `n` need: one for each, and
/// one more on the row where barrels are placed.
pub open spec fn least_moves(mask: u64, n: nat) -> nat
    decreases n,
{
    if n == 0 {
        0
    } else {
        least_moves(mask, (n - 1) as nat) + if on(mask, n - 1) {
            weight(n - 1)
        } else {
            0nat
        }
    }
}

pub open spec fn weight(s: int) -> nat {
    if row_of(s) == 5 {
        2
    } else {
        1
    }
}

/// The least number of moves of a race: three for each barrel in hand.
pub open spec fn least_race(mask: u64, off: int) -> int {
    least_moves(mask, 36) + 3 * off
}

proof fn lemma_least_remove(a: u64, b: u64, t: int, n: nat)
    requires
        n <= 36,
        0 <= t < 36,
        on(a, t),
        forall|s: int| #[trigger] on(b, s) == (on(a, s) && s != t),
    ensures
        least_moves(a, n) == least_moves(b, n) + if t < n {
            weight(t)
        } else {
            0nat
        },
    decreases n,
{
    if n > 0 {
        lemma_least_remove(a, b, t, (n - 1) as nat);
        assert(on(b, n - 1) == (on(a, n - 1) && n - 1 != t));
    }
}

proof fn lemma_least_count(mask: u64, n: nat)
    requires
        n <= 36,
    ensures
        least_moves(mask, n) >= count_below(mask, n),
    decreases n,
{
    if n > 0 {
        lemma_least_count(mask, (n - 1) as nat);
    }
}

/// Jumps keep the parity of the row.
proof fn lemma_jump_parity(cells: Seq<Cell>, p: Player, from: int, path: Seq<int>, k: int)
    requires
        jump_chain(cells, p, from, path),
        on_board(from),
        0 <= k < path.len(),
    ensures
        on_board(path[k]),
        row_of(path[k]) % 2 == row_of(from) % 2,
    decreases k,
{
    reveal(jump_chain);
    assert(jump_ok(cells, p, stop(from, path, k), path[k]));
    if k > 0 {
        lemma_jump_parity(cells, p, from, path, k - 1);
    }
    let a = stop(from, path, k);
    let d = choose|d: int| 0 <= d < 8 && #[trigger] ray(a, d, 2) == path[k] && crate::rules::hop(cells, p, a, d);
    lemma_ray(a, d);
}

/// A move shortens a race by at most one.
proof fn lemma_step_least(mask: u64, off: int, m2: u64, o2: int)
    requires
        race_state(mask, off),
        race_step(mask, off, m2, o2),
    ensures
        least_race(m2, o2) >= least_race(mask, off) - 1,
{
    broadcast use group_has;

    reveal(race_step);
    let st = race_game(mask, off);
    let a = choose|a: Action| st.legal(a) && #[trigger] shows(st.apply(a), m2, o2);
    assert forall|u: int| on(mask, u) implies on_board(u) by {
        assert(allowed(Player::White, u));
    }
    match a {
        Action::Pail { at } => {},
        Action::Place { to } => {
            assert forall|u: int| #[trigger] on(mask, u) == (on(m2, u) && u != to) by {}
            lemma_least_remove(m2, mask, to, 36);
        },
        Action::Walk { from, path } => {
            let t = path.last();
            if path.len() > 1 || !st.step_ok(from, path[0]) {
                lemma_jump_parity(st.cells, Player::White, from, path, path.len() - 1);
                lemma_last_empty(st.cells, from, path);
            }
            let kept = mask & !(1u64 << (from as u64));
            assert forall|u: int| #[trigger] on(kept, u) == (on(mask, u) && u != from) by {
                assert(on(1u64 << (from as u64), u) == (u == from));
            }
            lemma_least_remove(mask, kept, from, 36);
            if row_of(t) == 0 {
                assert forall|u: int| 0 <= u < 64 implies on(m2, u) == on(kept, u) by {}
                crate::bits::lemma_mask_ext(m2, kept);
            } else {
                assert forall|u: int| #[trigger] on(kept, u) == (on(m2, u) && u != t) by {}
                lemma_least_remove(m2, kept, t, 36);
            }
        },
    }
}

/// A chain of jumps ends on an empty square other than its start.
proof fn lemma_last_empty(cells: Seq<Cell>, from: int, path: Seq<int>)
    requires
        jump_chain(cells, Player::White, from, path),
        path.len() > 0,
    ensures
        cells[path.last()] == Cell::Empty,
        path.last() != from,
{
    reveal(jump_chain);
    let k = path.len() - 1;
    assert(jump_ok(cells, Player::White, stop(from, path, k), path[k]));
    assert(path.contains(path[k]));
}

proof fn lemma_home_least(n: nat, mask: u64, off: int)
    requires
        race_state(mask, off),
        home_in(n, mask, off),
    ensures
        n >= least_race(mask, off),
    decreases n,
{
    if n == 0 {
        lemma_least_empty(36);
    } else {
        let (m2, o2) = choose|m2: u64, o2: int| #[trigger]
            race_step(mask, off, m2, o2) && race_state(m2, o2) && home_in((n - 1) as nat, m2, o2);
        lemma_home_least((n - 1) as nat, m2, o2);
        lemma_step_least(mask, off, m2, o2);
    }
}

proof fn lemma_least_empty(n: nat)
    ensures
        least_moves(0, n) == 0,
    decreases n,
{
    broadcast use group_has;

    if n > 0 {
        lemma_least_empty((n - 1) as nat);
    }
}

/// A race takes at least one move for every barrel on the board, one more for
/// each on the first row, and three for each in hand; so at least one for each
/// barrel on the board and two for each in hand, and twelve with all in hand.
pub proof fn law_race_at_least(mask: u64, off: int, d: u16)
    requires
        race_state(mask, off),
        is_race_distance(mask, off, d),
    ensures
        d >= least_race(mask, off),
        d >= popcount(mask) + 2 * off,
        mask == 0 && off == 4 ==> d >= 12,
{
    if d < UNREACHED {
        lemma_home_least(d as nat, mask, off);
    }
    lemma_least_count(mask, 36);
    assert forall|s: int| 36 <= s < 64 implies !on(mask, s) by {
        assert(on(mask, s) ==> allowed(Player::White, s));
    }
    crate::phase::lemma_count_tail(mask, 36, 64);
    lemma_least_empty(36);
    lemma_least_small(mask, 36);
}

proof fn lemma_least_small(mask: u64, n: nat)
    requires
        n <= 36,
    ensures
        least_moves(mask, n) <= 2 * n,
    decreases n,
{
    if n > 0 {
        lemma_least_small(mask, (n - 1) as nat);
    }
}

} // verus!
