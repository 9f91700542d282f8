//! What solved tables promise of play.
use vstd::prelude::*;
use crate::bitboard::BitBoard;
use crate::board::Player;
use crate::phase::{in_phase, index_of, plain, states_of, Phase};
use crate::retrograde::{is_child, lemma_child_action, solve_phase, solved, wins, Scores};
use crate::table_play::law_wins_are_carried_home;
use crate::tablebase::Tablebase;

verus! {

/// The side brings its fourth barrel home within `n` moves of both sides, whatever
/// the other side does; counters of the past do not matter.
pub open spec fn forces(w: Player, b: BitBoard, n: nat) -> bool
    decreases n,
{
    if b.white_scored == 4 {
        w == Player::White
    } else if b.black_scored == 4 {
        w == Player::Black
    } else if n == 0 {
        false
    } else if b.current_player == w {
        exists|c: BitBoard| #[trigger] is_child(plain(b), c) && forces(w, c, (n - 1) as nat)
    } else {
        (exists|c: BitBoard| is_child(plain(b), c)) && forall|c: BitBoard| #[trigger]
            is_child(plain(b), c) ==> forces(w, c, (n - 1) as nat)
    }
}

proof fn lemma_forces_more(w: Player, b: BitBoard, n: nat, m: nat)
    requires
        forces(w, b, n),
        n <= m,
    ensures
        forces(w, b, m),
    decreases n,
{
    if b.white_scored != 4 && b.black_scored != 4 {
        if b.current_player == w {
            let c = choose|c: BitBoard| #[trigger] is_child(plain(b), c) && forces(w, c, (n - 1) as nat);
            lemma_forces_more(w, c, (n - 1) as nat, (m - 1) as nat);
        } else {
            assert forall|c: BitBoard| #[trigger] is_child(plain(b), c) implies forces(w, c, (m - 1) as nat) by {
                lemma_forces_more(w, c, (n - 1) as nat, (m - 1) as nat);
            }
        }
    }
}

/// The number tells a win of the side in this many moves.
pub open spec fn says_win(v: u8, w: Player, n: nat) -> bool {
    match w {
        Player::White => 1 <= v <= 121 && n == v - 1,
        Player::Black => 129 <= v <= 249 && n == v - 129,
    }
}

/// Every win that the tables hold of unfinished games is there.
pub open spec fn holds_true_wins(tb: Tablebase) -> bool {
    forall|c: BitBoard, w: Player, n: nat|
        c.proper() && c.white_scored < 4 && c.black_scored < 4 && tb.value_of(c) is Some && #[trigger] says_win(
            tb.value_of(c)->0,
            w,
            n,
        ) ==> forces(w, c, n)
}

/// The tables know a finished game as won at once by the side with four barrels
/// home; white is asked first.
pub proof fn law_tables_know_finished_games(tb: Tablebase, bb: BitBoard, r: Option<u8>)
    requires
        call_ensures(Tablebase::value, (&tb, &bb), r),
    ensures
        bb.white_scored == 4 ==> r is Some && says_win(r->0, Player::White, 0),
        bb.white_scored < 4 && bb.black_scored == 4 ==> r is Some && says_win(r->0, Player::Black, 0),
{
}

/// A win that a phase solved on top of true tables holds is a win on the board: the
/// side brings its barrels home in as many moves, whatever the other does.
#[verifier::spinoff_prover]
pub proof fn law_solved_wins_are_forced(lower: Tablebase, wr: usize, br: usize, p: Phase, b: BitBoard, i: usize, w: Player, n: nat)
    requires
        1 <= wr <= 4,
        1 <= br <= 4,
        holds_true_wins(lower),
        call_ensures(solve_phase, (&lower, wr, br), p),
        b.proper(),
        b.white_scored == 4 - wr,
        b.black_scored == 4 - br,
        call_ensures(Phase::index, (&p, &b), Some(i)),
        says_win(p.values@[i as int], w, n),
    ensures
        forces(w, b, n),
{
    let sc = Scores { lower, wr: wr as nat, br: br as nat, vals: p.values@ };
    lemma_solved_win(sc, b, w, n);
}

#[verifier::spinoff_prover]
proof fn lemma_solved_win(sc: Scores, b: BitBoard, w: Player, n: nat)
    requires
        1 <= sc.wr <= 4,
        1 <= sc.br <= 4,
        sc.vals.len() == states_of(sc.wr, sc.br),
        solved(sc),
        holds_true_wins(sc.lower),
        b.proper(),
        in_phase(sc.wr, sc.br, b),
        says_win(sc.vals[index_of(sc.br, b)], w, n),
    ensures
        forces(w, b, n),
    decreases n, 0int,
{
    let x = plain(b);
    assert(x@.cells =~= b@.cells);
    assert(x.proper());
    assert(plain(x) == x);
    assert(sc.of(x) == sc.vals[index_of(sc.br, b)]) by {
        reveal(Scores::of);
    }
    law_wins_are_carried_home(sc, x);
    if x.current_player == w {
        assert(wins(w, sc.of(x)));
        let c = choose|c: BitBoard| #[trigger]
            is_child(x, c) && wins(w, sc.of(c)) && crate::phase::win_dist(sc.of(c)) + 1 == crate::phase::win_dist(sc.of(x));
        lemma_won_child(sc, x, c, w, (n - 1) as nat);
    } else {
        assert(crate::retrograde::loses(x.current_player, sc.of(x)));
        assert forall|c: BitBoard| #[trigger] is_child(x, c) implies forces(w, c, (n - 1) as nat) by {
            let k = crate::phase::win_dist(sc.of(c)) as nat;
            lemma_won_child(sc, x, c, w, k);
            lemma_forces_more(w, c, k, (n - 1) as nat);
        }
        let c = choose|c: BitBoard| #[trigger]
            is_child(x, c) && crate::phase::win_dist(sc.of(c)) + 1 == crate::phase::win_dist(sc.of(x));
        assert(is_child(x, c));
    }
}

#[verifier::spinoff_prover]
proof fn lemma_won_child(sc: Scores, x: BitBoard, c: BitBoard, w: Player, n: nat)
    requires
        1 <= sc.wr <= 4,
        1 <= sc.br <= 4,
        sc.vals.len() == states_of(sc.wr, sc.br),
        solved(sc),
        holds_true_wins(sc.lower),
        x.proper(),
        x == plain(x),
        in_phase(sc.wr, sc.br, x),
        is_child(x, c),
        wins(w, sc.of(c)),
        n == crate::phase::win_dist(sc.of(c)),
    ensures
        forces(w, c, n),
    decreases n, 1int,
{
    let a = lemma_child_action(x, c);
    assert(c@.white_scored == c.white_scored && c@.black_scored == c.black_scored && x@.white_scored == x.white_scored
        && x@.black_scored == x.black_scored);
    assert(c.white_scored <= 4 && c.black_scored <= 4) by {
        crate::phase::lemma_barrels_popcount(c, Player::White);
        crate::phase::lemma_barrels_popcount(c, Player::Black);
    }
    reveal(Scores::of);
    if c.white_scored == 4 || c.black_scored == 4 {
    } else if c.white_scored > 4 - sc.wr || c.black_scored > 4 - sc.br {
        assert(says_win(sc.lower.value_of(c)->0, w, n));
    } else {
        lemma_solved_win(sc, c, w, n);
    }
}

/// Whatever a side can force from an unfinished game within 120 moves, the tables
/// hold as its win, no further away.
pub open spec fn holds_all_wins(tb: Tablebase) -> bool {
    forall|c: BitBoard, w: Player, n: nat|
        c.proper() && c.white_scored < 4 && c.black_scored < 4 && n <= 120 && #[trigger] forces(w, c, n)
            ==> tb.value_of(c) is Some && wins(w, tb.value_of(c)->0) && crate::phase::win_dist(tb.value_of(c)->0) <= n
}

/// A win that a side can force within 120 moves is held by a phase solved on top of
/// tables that hold all of theirs, no further away.
#[verifier::spinoff_prover]
pub proof fn law_forced_wins_are_solved(lower: Tablebase, wr: usize, br: usize, p: Phase, b: BitBoard, i: usize, w: Player, n: nat)
    requires
        1 <= wr <= 4,
        1 <= br <= 4,
        n <= 120,
        holds_all_wins(lower),
        call_ensures(solve_phase, (&lower, wr, br), p),
        call_ensures(Phase::index, (&p, &b), Some(i)),
        b.proper(),
        b.white_scored == 4 - wr,
        b.black_scored == 4 - br,
        forces(w, b, n),
    ensures
        exists|k: nat| k <= n && #[trigger] says_win(p.values@[i as int], w, k),
{
    let sc = Scores { lower, wr: wr as nat, br: br as nat, vals: p.values@ };
    lemma_forced_held(sc, b, w, n);
    let v = p.values@[i as int];
    assert(says_win(v, w, crate::phase::win_dist(v) as nat));
}

#[verifier::spinoff_prover]
proof fn lemma_forced_held(sc: Scores, b: BitBoard, w: Player, n: nat)
    requires
        1 <= sc.wr <= 4,
        1 <= sc.br <= 4,
        sc.vals.len() == states_of(sc.wr, sc.br),
        solved(sc),
        holds_all_wins(sc.lower),
        n <= 120,
        b.proper(),
        in_phase(sc.wr, sc.br, b),
        forces(w, b, n),
    ensures
        wins(w, sc.vals[index_of(sc.br, b)]),
        crate::phase::win_dist(sc.vals[index_of(sc.br, b)]) <= n,
    decreases n, 0int,
{
    let x = plain(b);
    assert(x@.cells =~= b@.cells);
    assert(x.proper());
    assert(plain(x) == x);
    assert(sc.of(x) == sc.vals[index_of(sc.br, b)]) by {
        reveal(Scores::of);
    }
    law_wins_are_carried_home(sc, x);
    if x.current_player == w {
        let c = choose|c: BitBoard| #[trigger] is_child(x, c) && forces(w, c, (n - 1) as nat);
        lemma_child_held(sc, x, c, w, (n - 1) as nat);
        lemma_nearest_win(sc, x, c);
    } else {
        let c = choose|c: BitBoard| is_child(x, c);
        assert forall|c: BitBoard| #[trigger] is_child(x, c) implies wins(w, sc.of(c)) && crate::phase::win_dist(sc.of(c))
            <= n - 1 by {
            lemma_child_held(sc, x, c, w, (n - 1) as nat);
        }
        assert(is_child(x, c));
        if wins(x.current_player, sc.of(x)) {
            let d = choose|d: BitBoard| #[trigger]
                is_child(x, d) && wins(x.current_player, sc.of(d)) && crate::phase::win_dist(sc.of(d)) + 1
                    == crate::phase::win_dist(sc.of(x));
            assert(wins(w, sc.of(d)));
        }
        if crate::retrograde::loses(x.current_player, sc.of(x)) {
            let d = choose|d: BitBoard| #[trigger]
                is_child(x, d) && crate::phase::win_dist(sc.of(d)) + 1 == crate::phase::win_dist(sc.of(x));
            assert(wins(w, sc.of(d)));
        }
    }
}

/// No winning move is nearer than the value says.
#[verifier::spinoff_prover]
proof fn lemma_nearest_win(sc: Scores, x: BitBoard, c: BitBoard)
    requires
        1 <= sc.wr <= 4,
        1 <= sc.br <= 4,
        sc.vals.len() == states_of(sc.wr, sc.br),
        solved(sc),
        x.proper(),
        x == plain(x),
        in_phase(sc.wr, sc.br, x),
        is_child(x, c),
        wins(x.current_player, sc.of(c)),
        crate::phase::win_dist(sc.of(c)) < 120,
    ensures
        wins(x.current_player, sc.of(x)),
        crate::phase::win_dist(sc.of(x)) <= crate::phase::win_dist(sc.of(c)) + 1,
{
    assert(sc.of(x) == sc.vals[index_of(sc.br, x)]) by {
        reveal(Scores::of);
    }
    let i = index_of(sc.br, x);
    crate::phase::lemma_index_digits(sc.wr, sc.br, x);
    crate::retrograde::lemma_board_at(sc.wr, sc.br, i, x);
    assert(crate::retrograde::settled(sc, i)) by {
        assert(sc.vals[i] == sc.vals[i]);
    }
    crate::retrograde::lemma_outlook(x, sc);
    crate::retrograde::lemma_outlook_range(x, sc);
    let o = crate::retrograde::outlook_of(x, sc);
    assert(crate::retrograde::has_outlook(x, sc, o));
}

#[verifier::spinoff_prover]
proof fn lemma_child_held(sc: Scores, x: BitBoard, c: BitBoard, w: Player, n: nat)
    requires
        1 <= sc.wr <= 4,
        1 <= sc.br <= 4,
        sc.vals.len() == states_of(sc.wr, sc.br),
        solved(sc),
        holds_all_wins(sc.lower),
        n <= 120,
        x.proper(),
        x == plain(x),
        in_phase(sc.wr, sc.br, x),
        is_child(x, c),
        forces(w, c, n),
    ensures
        wins(w, sc.of(c)),
        crate::phase::win_dist(sc.of(c)) <= n,
    decreases n, 1int,
{
    let a = lemma_child_action(x, c);
    assert(c@.white_scored == c.white_scored && c@.black_scored == c.black_scored && x@.white_scored == x.white_scored
        && x@.black_scored == x.black_scored);
    assert(c.white_scored <= 4 && c.black_scored <= 4) by {
        crate::phase::lemma_barrels_popcount(c, Player::White);
        crate::phase::lemma_barrels_popcount(c, Player::Black);
    }
    crate::rules::law_scores_monotone(x@, a);
    reveal(Scores::of);
    if c.white_scored == 4 || c.black_scored == 4 {
    } else if c.white_scored > 4 - sc.wr || c.black_scored > 4 - sc.br {
    } else {
        lemma_forced_held(sc, c, w, n);
    }
}

} // verus!
