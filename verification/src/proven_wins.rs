//! What a proven win is worth: where hashes tell positions apart, a forced win
//! is won on the board against every defence.
use vstd::prelude::*;
use crate::bitboard::BitBoard;
use crate::bitmove::BitMove;
use crate::board::Player;
use crate::forced::{forced, lemma_forced_parts};
use crate::node::{board_ok, is_legal, keyed};
use crate::retrograde::lemma_listed_playable;
use crate::rules::{Action, GameState};

verus! {

/// The position is won for `w`, or some move of `w`, or every move of the other
/// side, of which there is one, leads to a position of `known`.
pub open spec fn carries_on(b: BitBoard, w: Player, known: spec_fn(BitBoard) -> bool) -> bool {
    match b@.winner() {
        Some(p) => p == w,
        None => if b.current_player == w {
            exists|m: BitMove| #[trigger] is_legal(b, m) && known(b.played(m))
        } else {
            (exists|m: BitMove| is_legal(b, m)) && forall|m: BitMove| #[trigger] is_legal(b, m) ==> known(b.played(m))
        },
    }
}

/// The positions that `w` wins in at most `n` moves of both sides.
pub open spec fn won_boards(w: Player, n: nat) -> spec_fn(BitBoard) -> bool
    decreases n,
{
    let known: spec_fn(BitBoard) -> bool = if n == 0 {
        |b: BitBoard| false
    } else {
        won_boards(w, (n - 1) as nat)
    };
    |b: BitBoard| carries_on(b, w, known)
}

/// `w` wins in at most `n` moves of both sides, whatever the other side plays.
#[verifier::opaque]
pub open spec fn wins_in(w: Player, b: BitBoard, n: int) -> bool {
    n >= 0 && won_boards(w, n as nat)(b)
}

/// The positions differ at most in their counters, and in whether a pail was
/// placed in this turn or an earlier one.
pub open spec fn alike(s: GameState, t: GameState) -> bool {
    &&& s.cells == t.cells
    &&& s.player == t.player
    &&& s.white_pail_placed == t.white_pail_placed
    &&& s.black_pail_placed == t.black_pail_placed
    &&& s.white_off == t.white_off
    &&& s.black_off == t.black_off
    &&& s.white_scored == t.white_scored
    &&& s.black_scored == t.black_scored
}

/// No other game position has the hash of this one.
pub open spec fn own_hash(b: BitBoard) -> bool {
    forall|c: BitBoard| #[trigger] keyed(c) && c.hash == b.hash ==> alike(c@, b@)
}

/// The positions from which every position within `n` moves has a hash of its
/// own.
pub open spec fn told_boards(n: nat) -> spec_fn(BitBoard) -> bool
    decreases n,
{
    let near: spec_fn(BitBoard) -> bool = if n == 0 {
        |b: BitBoard| true
    } else {
        told_boards((n - 1) as nat)
    };
    |b: BitBoard| own_hash(b) && forall|m: BitMove| #[trigger] is_legal(b, m) ==> near(b.played(m))
}

/// Every position within `n` moves has a hash of its own.
#[verifier::opaque]
pub open spec fn told_apart(b: BitBoard, n: int) -> bool {
    n >= 0 && told_boards(n as nat)(b)
}

proof fn lemma_told_parts(b: BitBoard, n: int)
    requires
        told_apart(b, n),
    ensures
        own_hash(b),
        n > 0 ==> forall|m: BitMove| #[trigger] is_legal(b, m) ==> told_apart(b.played(m), n - 1),
{
    reveal(told_apart);
    if n > 0 {
        let near = told_boards((n - 1) as nat);
        assert forall|m: BitMove| #[trigger] is_legal(b, m) implies told_apart(b.played(m), n - 1) by {
            assert(near(b.played(m)));
        }
    }
}

proof fn lemma_wins_end(b: BitBoard, w: Player, n: int)
    requires
        b@.winner() == Some(w),
        n >= 0,
    ensures
        wins_in(w, b, n),
{
    reveal(wins_in);
    let known: spec_fn(BitBoard) -> bool = if n == 0 {
        |c: BitBoard| false
    } else {
        won_boards(w, (n - 1) as nat)
    };
    assert(carries_on(b, w, known));
    assert(won_boards(w, n as nat)(b));
}

proof fn lemma_wins_move(b: BitBoard, m: BitMove, n: int)
    requires
        b@.winner() is None,
        is_legal(b, m),
        wins_in(b.current_player, b.played(m), n - 1),
    ensures
        wins_in(b.current_player, b, n),
{
    reveal(wins_in);
    let known = won_boards(b.current_player, (n - 1) as nat);
    assert(carries_on(b, b.current_player, known));
    assert(won_boards(b.current_player, n as nat)(b));
}

proof fn lemma_wins_all(b: BitBoard, w: Player, n: int)
    requires
        b@.winner() is None,
        b.current_player != w,
        exists|m: BitMove| is_legal(b, m),
        forall|m: BitMove| #[trigger] is_legal(b, m) ==> wins_in(w, b.played(m), n - 1),
    ensures
        wins_in(w, b, n),
{
    reveal(wins_in);
    let m = choose|m: BitMove| is_legal(b, m);
    assert(wins_in(w, b.played(m), n - 1));
    let known = won_boards(w, (n - 1) as nat);
    assert(carries_on(b, w, known));
    assert(won_boards(w, n as nat)(b));
}

/// The same actions are legal in positions that are alike, and lead to
/// positions that are alike.
proof fn lemma_alike_apply(s: GameState, t: GameState, a: Action)
    requires
        alike(s, t),
        s.awaiting_barrel ==> s.pail_placed(s.player),
        t.awaiting_barrel ==> t.pail_placed(t.player),
    ensures
        s.legal(a) == t.legal(a),
        alike(s.apply(a), t.apply(a)),
{
}

/// The same moves are legal on boards that are alike, and lead to boards that
/// are alike and have the same hash.
proof fn lemma_alike_played(b: BitBoard, c: BitBoard, m: BitMove)
    requires
        keyed(b),
        keyed(c),
        board_ok(b, 1),
        board_ok(c, 1),
        alike(b@, c@),
    ensures
        is_legal(b, m) == is_legal(c, m),
        is_legal(b, m) ==> b.played(m).hash == c.played(m).hash && keyed(b.played(m)),
{
    reveal(keyed);
    reveal(board_ok);
    reveal(is_legal);
    lemma_alike_apply(b@, c@, m@);
    if is_legal(b, m) {
        lemma_listed_playable(b, m);
        lemma_listed_playable(c, m);
        b.lemma_played(m);
        c.lemma_played(m);
    }
}

/// The counters after a move are at most one higher.
proof fn lemma_room_played(b: BitBoard, m: BitMove, room: int)
    requires
        board_ok(b, room),
        room >= 1,
        is_legal(b, m),
    ensures
        board_ok(b.played(m), room - 1),
{
    reveal(board_ok);
    reveal(is_legal);
    lemma_listed_playable(b, m);
    b.lemma_played(m);
    let c = b.played(m);
    assert(c.move_count as int == c@.move_count && c.halfmove_clock as int == c@.clock);
    assert(c@.move_count <= b@.move_count + 1 && c@.clock <= b@.clock + 1);
}

/// A win that a search has proved is won on the board in as many moves, against
/// every defence, as far as the positions on the way have hashes of their own.
pub proof fn law_proven_wins_are_won(w: Player, b: BitBoard, n: int)
    requires
        keyed(b),
        board_ok(b, n + 1),
        forced(w, b.hash, n),
        told_apart(b, n),
    ensures
        wins_in(w, b, n),
    decreases n,
{
    let c = lemma_forced_parts(w, b.hash, n);
    lemma_told_parts(b, n);
    crate::node::lemma_less_room(b, n + 1, 1);
    assert(alike(c@, b@));
    assert(b.current_player == b@.player && c.current_player == c@.player);
    if b@.winner() is Some {
        lemma_wins_end(b, w, n);
    } else if b.current_player == w {
        let m = choose|m: BitMove| #[trigger] is_legal(c, m) && forced(w, c.played(m).hash, n - 1);
        lemma_alike_played(b, c, m);
        lemma_room_played(b, m, n + 1);
        law_proven_wins_are_won(w, b.played(m), n - 1);
        lemma_wins_move(b, m, n);
    } else {
        let k = choose|m: BitMove| is_legal(c, m);
        lemma_alike_played(b, c, k);
        assert forall|m: BitMove| #[trigger] is_legal(b, m) implies wins_in(w, b.played(m), n - 1) by {
            lemma_alike_played(b, c, m);
            lemma_room_played(b, m, n + 1);
            assert(is_legal(c, m));
            law_proven_wins_are_won(w, b.played(m), n - 1);
        }
        lemma_wins_all(b, w, n);
    }
}

} // verus!
