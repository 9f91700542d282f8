//! Forced wins as the search can prove them: positions are told by their hash.
use vstd::prelude::*;
use crate::bitboard::BitBoard;
use crate::bitmove::BitMove;
use crate::board::Player;
use crate::engine::{table_ok, BitBoardEngine, OutputLayer, WIN_BOUND, WIN_SCORE};
use crate::engine_state::{mild_cache, MILD_EVAL};
use crate::movegen::lists_legal;
use crate::node::{all_legal, board_ok, from_tt, is_legal, keyed, to_tt};
use crate::phase::{is_black_win, is_white_win, win_dist};
use crate::search::lemma_legal_listed;
use crate::tt::{TTEntry, TTFlag};

verus! {

/// The position is won for `w`, or some move of `w`, or every move of the other
/// side, leads to a hash of `known`.
pub open spec fn leads_into(b: BitBoard, w: Player, known: spec_fn(u64) -> bool) -> bool {
    match b@.winner() {
        Some(p) => p == w,
        None => if b.current_player == w {
            exists|m: BitMove| #[trigger] is_legal(b, m) && known(b.played(m).hash)
        } else {
            (exists|m: BitMove| is_legal(b, m)) && forall|m: BitMove| #[trigger]
                is_legal(b, m) ==> known(b.played(m).hash)
        },
    }
}

/// The hashes of positions that `w` wins in at most `n` moves of both sides.
pub open spec fn forced_hashes(w: Player, n: nat) -> spec_fn(u64) -> bool
    decreases n,
{
    let known: spec_fn(u64) -> bool = if n == 0 {
        |h: u64| false
    } else {
        forced_hashes(w, (n - 1) as nat)
    };
    |h: u64| exists|b: BitBoard| #[trigger] keyed(b) && board_ok(b, 1) && b.hash == h && leads_into(b, w, known)
}

/// A game position with this hash is won for `w` in at most `n` moves, where
/// each position on the way is told by its hash.
#[verifier::opaque]
pub open spec fn forced(w: Player, hash: u64, n: int) -> bool {
    n >= 0 && forced_hashes(w, n as nat)(hash)
}

/// What a score seen from a node at distance `ply` proves: a winning score above
/// the window's lower end a win of white, one below its upper end a win of black,
/// each at the distance that the score tells.
#[verifier::opaque]
pub open spec fn proves(hash: u64, v: int, ply: int, alpha: int, beta: int) -> bool {
    &&& v > WIN_BOUND && v > alpha ==> forced(Player::White, hash, WIN_SCORE - v - ply)
    &&& v < -WIN_BOUND && v < beta ==> forced(Player::Black, hash, WIN_SCORE + v - ply)
}

/// A table entry claims no win that is not there.
pub open spec fn slot_true(e: Option<TTEntry>) -> bool {
    e matches Some(x) ==> {
        &&& x.flag != TTFlag::UpperBound && x.score > WIN_BOUND ==> forced(Player::White, x.hash, WIN_SCORE - x.score)
        &&& x.flag != TTFlag::LowerBound && x.score < -WIN_BOUND ==> forced(Player::Black, x.hash, WIN_SCORE + x.score)
    }
}

impl<L: OutputLayer> BitBoardEngine<L> {
    /// Every win that the endgame tables hold is there.
    pub open spec fn true_tables(&self) -> bool {
        forall|b: BitBoard| #[trigger]
            keyed(b) && board_ok(b, 1) ==> (self.table_value(b) matches Some(v) ==> {
                &&& is_white_win(v) ==> forced(Player::White, b.hash, win_dist(v) as int)
                &&& is_black_win(v) ==> forced(Player::Black, b.hash, win_dist(v) as int)
            })
    }

    /// The settings keep everything but wins away from winning scores: there is
    /// no network, and evaluations, draws and the null move's margin are small.
    pub open spec fn mild_settings(&self) -> bool {
        &&& self.nnue is None
        &&& self.weights.reach() <= MILD_EVAL
        &&& -MILD_EVAL <= self.contempt <= MILD_EVAL
        &&& self.knobs.nmp_margin <= 30_000
    }

    /// The engine believes in no win that is not there: its tables, entries and
    /// evaluations claim none.
    #[verifier::opaque]
    pub open spec fn sound(&self) -> bool {
        &&& self.mild_settings()
        &&& self.true_tables()
        &&& mild_cache(self.eval_cache)
        &&& forall|i: int, k: int|
            0 <= i < self.tt.clusters@.len() && 0 <= k < 3 ==> slot_true(#[trigger] self.tt.clusters@[i].entries@[k])
    }
}

/// What an engine believes depends on its settings, entries and cache only.
pub proof fn lemma_sound_same<L: OutputLayer>(a: BitBoardEngine<L>, b: BitBoardEngine<L>)
    requires
        a.fixed() == b.fixed(),
        a.tt.clusters == b.tt.clusters,
        a.eval_cache.entries == b.eval_cache.entries,
    ensures
        a.sound() == b.sound(),
{
    reveal(BitBoardEngine::sound);
    reveal(mild_cache);
    let fa = a.fixed();
    let fb = b.fixed();
    assert(fa.nnue == fb.nnue && fa.weights == fb.weights && fa.contempt == fb.contempt && fa.knobs == fb.knobs
        && fa.tablebase == fb.tablebase);
    assert forall|c: BitBoard| #[trigger] keyed(c) implies a.table_value(c) == b.table_value(c) by {}
}

/// What a sound engine's settings are.
pub proof fn lemma_sound_mild<L: OutputLayer>(e: BitBoardEngine<L>)
    requires
        e.sound(),
    ensures
        e.mild_settings(),
        mild_cache(e.eval_cache),
{
    reveal(BitBoardEngine::sound);
}

/// An engine stays sound as long as what it caches is mild.
pub proof fn lemma_sound_cache<L: OutputLayer>(a: BitBoardEngine<L>, b: BitBoardEngine<L>)
    requires
        a.fixed() == b.fixed(),
        a.tt.clusters == b.tt.clusters,
        a.sound(),
        mild_cache(b.eval_cache),
    ensures
        b.sound(),
{
    let c = BitBoardEngine { eval_cache: b.eval_cache, ..a };
    assert(c.sound()) by {
        reveal(BitBoardEngine::sound);
        assert forall|x: BitBoard| #[trigger] keyed(x) implies a.table_value(x) == c.table_value(x) by {}
    }
    lemma_sound_same(c, b);
}

/// The entry that a sound engine finds is true.
pub proof fn lemma_sound_entry<L: OutputLayer>(e: BitBoardEngine<L>, hash: u64)
    requires
        e.sound(),
        table_ok(e.tt),
    ensures
        slot_true(e.tt.find(hash)),
{
    reveal(BitBoardEngine::sound);
    let i = e.tt.index_of(hash);
    assert(0 <= i < e.tt.clusters@.len());
    assert(slot_true(e.tt.clusters@[i].entries@[0]));
    assert(slot_true(e.tt.clusters@[i].entries@[1]));
    assert(slot_true(e.tt.clusters@[i].entries@[2]));
}

/// A finished game is won.
pub proof fn lemma_forced_end(b: BitBoard, w: Player, n: int)
    requires
        keyed(b),
        board_ok(b, 1),
        b@.winner() == Some(w),
        n >= 0,
    ensures
        forced(w, b.hash, n),
{
    reveal(forced);
    let known: spec_fn(u64) -> bool = if n == 0 {
        |h: u64| false
    } else {
        forced_hashes(w, (n - 1) as nat)
    };
    assert(leads_into(b, w, known));
    assert(forced_hashes(w, n as nat)(b.hash));
}

/// A move into a win is a win.
pub proof fn lemma_forced_move(b: BitBoard, m: BitMove, n: int)
    requires
        keyed(b),
        board_ok(b, 1),
        b@.winner() is None,
        is_legal(b, m),
        forced(b.current_player, b.played(m).hash, n - 1),
    ensures
        forced(b.current_player, b.hash, n),
{
    reveal(forced);
    let known = forced_hashes(b.current_player, (n - 1) as nat);
    assert(leads_into(b, b.current_player, known));
    assert(forced_hashes(b.current_player, n as nat)(b.hash));
}

/// A side that can act, and every move of which loses, has lost.
pub proof fn lemma_forced_all(b: BitBoard, w: Player, n: int)
    requires
        keyed(b),
        board_ok(b, 1),
        b@.winner() is None,
        b.current_player != w,
        exists|m: BitMove| is_legal(b, m),
        forall|m: BitMove| #[trigger] is_legal(b, m) ==> forced(w, b.played(m).hash, n - 1),
    ensures
        forced(w, b.hash, n),
{
    reveal(forced);
    let m = choose|m: BitMove| is_legal(b, m);
    assert(forced(w, b.played(m).hash, n - 1));
    let known = forced_hashes(w, (n - 1) as nat);
    assert(leads_into(b, w, known));
    assert(forced_hashes(w, n as nat)(b.hash));
}

/// A position behind a forced win, and how it is won.
pub proof fn lemma_forced_parts(w: Player, hash: u64, n: int) -> (b: BitBoard)
    requires
        forced(w, hash, n),
    ensures
        n >= 0,
        keyed(b),
        board_ok(b, 1),
        b.hash == hash,
        b@.winner() matches Some(p) ==> p == w,
        b@.winner() is None ==> n >= 1,
        b@.winner() is None && b.current_player == w ==> exists|m: BitMove| #[trigger]
            is_legal(b, m) && forced(w, b.played(m).hash, n - 1),
        b@.winner() is None && b.current_player != w ==> (exists|m: BitMove| is_legal(b, m)) && forall|m: BitMove| #[trigger]
            is_legal(b, m) ==> forced(w, b.played(m).hash, n - 1),
{
    reveal(forced);
    let known: spec_fn(u64) -> bool = if n == 0 {
        |h: u64| false
    } else {
        forced_hashes(w, (n - 1) as nat)
    };
    let b = choose|b: BitBoard| #[trigger] keyed(b) && board_ok(b, 1) && b.hash == hash && leads_into(b, w, known);
    if b@.winner() is None {
        if b.current_player == w {
            let m = choose|m: BitMove| #[trigger] is_legal(b, m) && known(b.played(m).hash);
            assert(is_legal(b, m) && forced(w, b.played(m).hash, n - 1));
        } else {
            let m = choose|m: BitMove| is_legal(b, m);
            assert(known(b.played(m).hash));
        }
    }
    b
}

/// More moves do no harm.
pub proof fn lemma_forced_more(w: Player, hash: u64, n: int, k: int)
    requires
        forced(w, hash, n),
        n <= k,
    ensures
        forced(w, hash, k),
    decreases n,
{
    let b = lemma_forced_parts(w, hash, n);
    if b@.winner() is Some {
        lemma_forced_end(b, w, k);
    } else if b.current_player == w {
        let m = choose|m: BitMove| #[trigger] is_legal(b, m) && forced(w, b.played(m).hash, n - 1);
        lemma_forced_more(w, b.played(m).hash, n - 1, k - 1);
        lemma_forced_move(b, m, k);
    } else {
        assert forall|m: BitMove| #[trigger] is_legal(b, m) implies forced(w, b.played(m).hash, k - 1) by {
            lemma_forced_more(w, b.played(m).hash, n - 1, k - 1);
        }
        lemma_forced_all(b, w, k);
    }
}

/// A score outside the winning range proves nothing, and needs not.
pub proof fn lemma_proves_mild(hash: u64, v: int, ply: int, alpha: int, beta: int)
    requires
        -WIN_BOUND <= v <= WIN_BOUND,
    ensures
        proves(hash, v, ply, alpha, beta),
{
    reveal(proves);
}

/// A finished game's score proves its win.
pub proof fn lemma_proves_end(b: BitBoard, w: Player, ply: int, alpha: int, beta: int)
    requires
        keyed(b),
        board_ok(b, 1),
        b@.winner() == Some(w),
        0 <= ply <= 100_010,
    ensures
        proves(b.hash, crate::node::win_score_of(w, ply), ply, alpha, beta),
{
    reveal(proves);
    lemma_forced_end(b, w, 0);
}

/// What a proven score behind a move proves of the position before it.
pub proof fn lemma_move_proves(b: BitBoard, m: BitMove, v: int, ply: int, alpha: int, beta: int)
    requires
        keyed(b),
        board_ok(b, 1),
        b@.winner() is None,
        is_legal(b, m),
        proves(b.played(m).hash, v, ply + 1, alpha, beta),
    ensures
        b.current_player == Player::White && v > WIN_BOUND && v > alpha ==> forced(
            Player::White,
            b.hash,
            WIN_SCORE - v - ply,
        ),
        b.current_player == Player::Black && v < -WIN_BOUND && v < beta ==> forced(
            Player::Black,
            b.hash,
            WIN_SCORE + v - ply,
        ),
{
    reveal(proves);
    if b.current_player == Player::White && v > WIN_BOUND && v > alpha {
        lemma_forced_move(b, m, WIN_SCORE - v - ply);
    }
    if b.current_player == Player::Black && v < -WIN_BOUND && v < beta {
        lemma_forced_move(b, m, WIN_SCORE + v - ply);
    }
}

/// A window that proven scores have narrowed proves as much as the whole.
pub proof fn lemma_proves_wider(hash: u64, v: int, ply: int, alpha: int, beta: int, lo: int, hi: int)
    requires
        proves(hash, v, ply, alpha, beta),
        lo <= alpha,
        beta <= hi,
        alpha != lo && alpha > WIN_BOUND ==> forced(Player::White, hash, WIN_SCORE - alpha - ply),
        beta != hi && beta < -WIN_BOUND ==> forced(Player::Black, hash, WIN_SCORE + beta - ply),
    ensures
        proves(hash, v, ply, lo, hi),
{
    reveal(proves);
    if v > WIN_BOUND && lo < v <= alpha {
        lemma_forced_more(Player::White, hash, WIN_SCORE - alpha - ply, WIN_SCORE - v - ply);
    }
    if v < -WIN_BOUND && beta <= v < hi {
        lemma_forced_more(Player::Black, hash, WIN_SCORE + beta - ply, WIN_SCORE + v - ply);
    }
}

/// A search in the window just above `alpha`, or just below `beta`, proves what
/// one in the whole window would, unless its score lies inside.
pub proof fn lemma_proves_null(hash: u64, v: int, ply: int, alpha: int, beta: int)
    requires
        alpha < beta,
        proves(hash, v, ply, alpha, alpha + 1) || proves(hash, v, ply, beta - 1, beta),
        v <= alpha || v >= beta,
    ensures
        proves(hash, v, ply, alpha, beta),
{
    reveal(proves);
}

/// An entry's score seen from a node proves what the entry's kind of bound can.
pub proof fn lemma_entry_proves(x: TTEntry, ply: int)
    requires
        slot_true(Some(x)),
        0 <= ply <= 100_001,
    ensures
        ({
            let v = from_tt(x.score as int, ply);
            &&& x.flag != TTFlag::UpperBound && v > WIN_BOUND ==> forced(Player::White, x.hash, WIN_SCORE - v - ply)
            &&& x.flag != TTFlag::LowerBound && v < -WIN_BOUND ==> forced(Player::Black, x.hash, WIN_SCORE + v - ply)
        }),
{
}

/// Every position behind the first `i` moves is won for `w` in `n` moves.
#[verifier::opaque]
pub open spec fn all_forced(w: Player, b: BitBoard, moves: Seq<BitMove>, i: int, n: int) -> bool {
    forall|j: int| 0 <= j < i ==> forced(w, b.played(#[trigger] moves[j]).hash, n)
}

proof fn lemma_all_forced_step(w: Player, b: BitBoard, moves: Seq<BitMove>, i: int, n: int, k: int)
    requires
        all_forced(w, b, moves, i, n),
        n <= k,
        forced(w, b.played(moves[i]).hash, k),
    ensures
        all_forced(w, b, moves, i + 1, k),
{
    reveal(all_forced);
    assert forall|j: int| 0 <= j < i + 1 implies forced(w, b.played(#[trigger] moves[j]).hash, k) by {
        if j < i {
            lemma_forced_more(w, b.played(moves[j]).hash, n, k);
        }
    }
}

/// What the best score of the first `i` moves shows of a position: a win for
/// the side to move, or a loss behind every one of the moves.
#[verifier::opaque]
pub open spec fn shown(b: BitBoard, moves: Seq<BitMove>, i: int, best: int, ply: int, alpha: int, beta: int) -> bool {
    match b.current_player {
        Player::White => {
            &&& best > WIN_BOUND && best > alpha ==> forced(Player::White, b.hash, WIN_SCORE - best - ply)
            &&& best < -WIN_BOUND && best < beta ==> all_forced(Player::Black, b, moves, i, WIN_SCORE + best - ply - 1)
        },
        Player::Black => {
            &&& best < -WIN_BOUND && best < beta ==> forced(Player::Black, b.hash, WIN_SCORE + best - ply)
            &&& best > WIN_BOUND && best > alpha ==> all_forced(Player::White, b, moves, i, WIN_SCORE - best - ply - 1)
        },
    }
}

/// Before the first move nothing needs to be shown.
pub proof fn lemma_shown_start(b: BitBoard, moves: Seq<BitMove>, best: int, ply: int, alpha: int, beta: int)
    requires
        b.current_player == Player::White ==> best <= WIN_BOUND,
        b.current_player == Player::Black ==> best >= -WIN_BOUND,
    ensures
        shown(b, moves, 0, best, ply, alpha, beta),
{
    reveal(shown);
    reveal(all_forced);
}

/// A move may be skipped while the best score is no loss.
pub proof fn lemma_shown_skip(b: BitBoard, moves: Seq<BitMove>, i: int, best: int, ply: int, alpha: int, beta: int)
    requires
        shown(b, moves, i, best, ply, alpha, beta),
        b.current_player == Player::White ==> best >= -WIN_BOUND,
        b.current_player == Player::Black ==> best <= WIN_BOUND,
    ensures
        shown(b, moves, i + 1, best, ply, alpha, beta),
{
    reveal(shown);
}

/// One more move, searched in the window that the best score has narrowed.
pub proof fn lemma_shown_step(
    b: BitBoard,
    moves: Seq<BitMove>,
    i: int,
    best: int,
    score: int,
    ply: int,
    alpha: int,
    beta: int,
    lo: int,
    hi: int,
)
    requires
        keyed(b),
        board_ok(b, 1),
        b@.winner() is None,
        is_legal(b, moves[i]),
        shown(b, moves, i, best, ply, lo, hi),
        proves(b.played(moves[i]).hash, score, ply + 1, alpha, beta),
        b.current_player == Player::White ==> beta == hi && (alpha == lo || alpha == best) && alpha >= lo,
        b.current_player == Player::Black ==> alpha == lo && (beta == hi || beta == best) && beta <= hi,
    ensures
        b.current_player == Player::White ==> shown(b, moves, i + 1, if score > best { score } else { best }, ply, lo, hi),
        b.current_player == Player::Black ==> shown(b, moves, i + 1, if score < best { score } else { best }, ply, lo, hi),
{
    reveal(shown);
    lemma_move_proves(b, moves[i], score, ply, alpha, beta);
    let c = b.played(moves[i]).hash;
    match b.current_player {
        Player::White => {
            let next = if score > best { score } else { best };
            if next < -WIN_BOUND && next < hi {
                assert(forced(Player::Black, c, WIN_SCORE + score - (ply + 1))) by {
                    reveal(proves);
                }
                lemma_forced_more(Player::Black, c, WIN_SCORE + score - (ply + 1), WIN_SCORE + next - ply - 1);
                lemma_all_forced_step(
                    Player::Black,
                    b,
                    moves,
                    i,
                    WIN_SCORE + best - ply - 1,
                    WIN_SCORE + next - ply - 1,
                );
            }
        },
        Player::Black => {
            let next = if score < best { score } else { best };
            if next > WIN_BOUND && next > lo {
                assert(forced(Player::White, c, WIN_SCORE - score - (ply + 1))) by {
                    reveal(proves);
                }
                lemma_forced_more(Player::White, c, WIN_SCORE - score - (ply + 1), WIN_SCORE - next - ply - 1);
                lemma_all_forced_step(
                    Player::White,
                    b,
                    moves,
                    i,
                    WIN_SCORE - best - ply - 1,
                    WIN_SCORE - next - ply - 1,
                );
            }
        },
    }
}

/// All moves have been searched, or the side to move has left the window.
pub open spec fn all_shown(b: BitBoard, moves: Seq<BitMove>, best: int, ply: int, alpha: int, beta: int) -> bool {
    shown(b, moves, moves.len() as int, best, ply, alpha, beta) || {
        &&& b.current_player == Player::White ==> best >= beta
        &&& b.current_player == Player::Black ==> best <= alpha
        &&& exists|i: int| 0 <= i && #[trigger] shown(b, moves, i, best, ply, alpha, beta)
    }
}

/// With all legal moves searched, what is shown is proved.
pub proof fn lemma_shown_proves(
    b: BitBoard,
    listed: Seq<BitMove>,
    moves: Seq<BitMove>,
    best: int,
    ply: int,
    alpha: int,
    beta: int,
)
    requires
        keyed(b),
        board_ok(b, 1),
        b@.winner() is None,
        lists_legal(listed, b@),
        all_legal(b, listed),
        listed.len() > 0,
        listed.to_multiset() == moves.to_multiset(),
        all_shown(b, moves, best, ply, alpha, beta),
    ensures
        proves(b.hash, best, ply, alpha, beta),
{
    reveal(shown);
    reveal(proves);
    assert(is_legal(b, listed[0]));
    if b.current_player == Player::White {
        if best < -WIN_BOUND && best < beta {
            let n = WIN_SCORE + best - ply;
            lemma_all_legal_forced(b, Player::Black, listed, moves, n - 1);
            lemma_forced_all(b, Player::Black, n);
        }
    } else {
        if best > WIN_BOUND && best > alpha {
            let n = WIN_SCORE - best - ply;
            lemma_all_legal_forced(b, Player::White, listed, moves, n - 1);
            lemma_forced_all(b, Player::White, n);
        }
    }
}

proof fn lemma_all_legal_forced(b: BitBoard, w: Player, listed: Seq<BitMove>, moves: Seq<BitMove>, n: int)
    requires
        lists_legal(listed, b@),
        all_legal(b, listed),
        listed.to_multiset() == moves.to_multiset(),
        all_forced(w, b, moves, moves.len() as int, n),
    ensures
        forall|k: BitMove| #[trigger] is_legal(b, k) ==> forced(w, b.played(k).hash, n),
{
    reveal(all_forced);
    listed.to_multiset_ensures();
    moves.to_multiset_ensures();
    assert forall|k: BitMove| #[trigger] is_legal(b, k) implies forced(w, b.played(k).hash, n) by {
        lemma_legal_listed(b, listed, k);
        let i = choose|i: int| 0 <= i < listed.len() && b.played(#[trigger] listed[i]) == b.played(k);
        assert(listed.contains(listed[i]));
        assert(listed.to_multiset().count(listed[i]) > 0);
        assert(moves.contains(listed[i]));
        let j = choose|j: int| 0 <= j < moves.len() && moves[j] == listed[i];
        assert(forced(w, b.played(moves[j]).hash, n));
    }
}

/// What is stored of a proven score is true.
pub proof fn lemma_slot_true(x: TTEntry, v: int, ply: int, alpha: int, beta: int)
    requires
        proves(x.hash, v, ply, alpha, beta),
        x.score == crate::search::limited(to_tt(v, ply)),
        0 <= ply,
        alpha < beta,
        x.flag == TTFlag::UpperBound || v > alpha,
        x.flag == TTFlag::LowerBound || v < beta,
    ensures
        slot_true(Some(x)),
{
    reveal(proves);
    reveal(forced);
}

} // verus!
