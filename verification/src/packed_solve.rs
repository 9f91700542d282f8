//! Plain fixpoint solution of a symmetric phase in two bits per position.
//!
//! White to move wins if some move reaches a won position, and loses if it has
//! a move and every move reaches a lost one. Passes over all undecided
//! positions repeat until none is decided.
use vstd::prelude::*;
use crate::bitboard::BitBoard;
use crate::bitmove::BitMove;
use crate::board::Player;
use crate::mirror::color_mirror;
use crate::movegen::lists_legal;
use crate::packed::{
    entry, lemma_mirrored, lemma_packed_digits, mirrored, packed_index_of, packed_states, PackedPhase, P_BLACK,
    P_INVALID, P_UNKNOWN, P_WHITE,
};
use crate::phase::{core_of, in_phase, is_black_win, is_white_win};
use crate::retrograde::{
    boards_of, is_child, lemma_child_action, lemma_listed_legal, lemma_listed_playable, lemma_lists_children,
    lemma_move_child, lists_children,
};
use crate::rules::{hash_of, initial_state};
use crate::symmetry::law_mirror_wf;
use crate::tablebase::Tablebase;

verus! {

/// What is known of the positions a packed phase can lead to.
pub struct PackedScores {
    pub lower: Tablebase,
    pub r: nat,
    pub data: Seq<u8>,
}

impl PackedScores {
    /// Who wins a position reached by one move, if that is known.
    #[verifier::opaque]
    pub open spec fn winner(self, c: BitBoard) -> Option<Player> {
        if c.white_scored > 4 - self.r || c.black_scored > 4 - self.r {
            match self.lower.value_of(c) {
                Some(v) => if is_white_win(v) {
                    Some(Player::White)
                } else if is_black_win(v) {
                    Some(Player::Black)
                } else {
                    None
                },
                None => None,
            }
        } else if c.current_player == Player::White {
            owner(entry(self.data, packed_index_of(self.r, c)))
        } else {
            match owner(entry(self.data, packed_index_of(self.r, mirrored(c)))) {
                Some(p) => Some(p.opponent()),
                None => None,
            }
        }
    }
}

/// The winner an entry stands for.
pub open spec fn owner(v: u8) -> Option<Player> {
    if v == P_WHITE {
        Some(Player::White)
    } else if v == P_BLACK {
        Some(Player::Black)
    } else {
        None
    }
}

pub open spec fn can_win(b: BitBoard, sc: PackedScores) -> bool {
    exists|c: BitBoard| #[trigger] is_child(b, c) && sc.winner(c) == Some(Player::White)
}

pub open spec fn must_lose(b: BitBoard, sc: PackedScores) -> bool {
    &&& exists|c: BitBoard| is_child(b, c)
    &&& forall|c: BitBoard| #[trigger] is_child(b, c) ==> sc.winner(c) == Some(Player::Black)
}

/// The entry that examining a position with white to move gives.
pub open spec fn packed_verdict(b: BitBoard, sc: PackedScores) -> u8 {
    if can_win(b, sc) {
        P_WHITE
    } else if must_lose(b, sc) {
        P_BLACK
    } else {
        P_UNKNOWN
    }
}

/// `b` is the position with white to move and this index, without history.
pub open spec fn is_packed_board(r: nat, idx: int, b: BitBoard) -> bool {
    &&& b.proper()
    &&& in_phase(r, r, b)
    &&& b.current_player == Player::White
    &&& packed_index_of(r, b) == idx
    &&& b.move_count == 0
    &&& b.halfmove_clock == 0
    &&& b.hash == hash_of(initial_state())
}

pub open spec fn has_packed_board(r: nat, idx: int) -> bool {
    exists|b: BitBoard| is_packed_board(r, idx, b)
}

pub open spec fn packed_board_at(r: nat, idx: int) -> BitBoard {
    choose|b: BitBoard| is_packed_board(r, idx, b)
}

pub(crate) proof fn lemma_packed_board(r: nat, idx: int, b: BitBoard)
    requires
        is_packed_board(r, idx, b),
    ensures
        packed_board_at(r, idx) == b,
        has_packed_board(r, idx),
{
    let a = packed_board_at(r, idx);
    lemma_packed_digits(r, a);
    lemma_packed_digits(r, b);
    crate::phase::lemma_board_from_digits(a, b);
    assert(a@ == core_of(a@) && b@ == core_of(b@));
    crate::convert::law_bitboard_is_its_view(a, b);
}

/// A child of a position of the phase belongs to the phase, as it is or
/// mirrored, or to a lower one.
proof fn lemma_packed_child(r: nat, b: BitBoard, c: BitBoard)
    requires
        b.proper(),
        in_phase(r, r, b),
        b.move_count < u32::MAX,
        b.halfmove_clock < u16::MAX,
        is_child(b, c),
    ensures
        c.proper(),
        c.white_scored <= 4,
        c.black_scored <= 4,
        !(c.white_scored > 4 - r || c.black_scored > 4 - r) ==> in_phase(r, r, c),
{
    let a = lemma_child_action(b, c);
    crate::rules::law_scores_monotone(b@, a);
    crate::phase::lemma_barrels_popcount(c, Player::White);
    crate::phase::lemma_barrels_popcount(c, Player::Black);
    assert(c.white_scored as int == c@.white_scored && c.black_scored as int == c@.black_scored);
}

/// Who wins the position that a legal move leads to, if that is known.
fn child_winner(lower: &Tablebase, phase: &PackedPhase, bb: &BitBoard, mv: &BitMove) -> (w: Option<Player>)
    requires
        lower.wf(),
        phase.wf(),
        bb.proper(),
        in_phase(phase.r as nat, phase.r as nat, *bb),
        bb.move_count < u32::MAX,
        bb.halfmove_clock < u16::MAX,
        mv.valid(),
        mv.single(),
        bb@.legal(mv@),
    ensures
        w == (PackedScores { lower: *lower, r: phase.r as nat, data: phase.data@ }).winner(bb.played(*mv)),
{
    reveal(PackedScores::winner);
    let mut child = *bb;
    proof {
        lemma_listed_playable(*bb, *mv);
    }
    child.make_move(mv);
    proof {
        lemma_move_child(*bb, *mv);
        lemma_packed_child(phase.r as nat, *bb, child);
    }
    if child.white_scored as usize > 4 - phase.r || child.black_scored as usize > 4 - phase.r {
        match lower.value(&child) {
            Some(v) => {
                if is_white_win(v) {
                    Some(Player::White)
                } else if is_black_win(v) {
                    Some(Player::Black)
                } else {
                    None
                }
            },
            None => None,
        }
    } else if child.current_player == Player::White {
        let v: u8 = phase.get(phase.index(&child).unwrap());
        if v == P_WHITE {
            Some(Player::White)
        } else if v == P_BLACK {
            Some(Player::Black)
        } else {
            None
        }
    } else {
        let m = color_mirror(&child);
        proof {
            lemma_mirrored(m, child);
            law_mirror_wf(m, child);
        }
        let v: u8 = phase.get(phase.index(&m).unwrap());
        if v == P_WHITE {
            Some(Player::Black)
        } else if v == P_BLACK {
            Some(Player::White)
        } else {
            None
        }
    }
}

/// Examines one position with white to move.
pub fn packed_determine(lower: &Tablebase, phase: &PackedPhase, bb: &BitBoard) -> (v: u8)
    requires
        lower.wf(),
        phase.wf(),
        bb.proper(),
        in_phase(phase.r as nat, phase.r as nat, *bb),
        bb.current_player == Player::White,
        bb.move_count < u32::MAX,
        bb.halfmove_clock < u16::MAX,
    ensures
        v == packed_verdict(*bb, PackedScores { lower: *lower, r: phase.r as nat, data: phase.data@ }),
{
    let ghost sc = PackedScores { lower: *lower, r: phase.r as nat, data: phase.data@ };
    let moves = bb.generate_moves();
    let ghost cs = boards_of(*bb, moves@);
    proof {
        lemma_lists_children(*bb, moves@);
    }
    let mut all_lose: bool = true;
    let mut j: usize = 0;
    while j < moves.len()
        invariant
            j <= moves@.len(),
            lower.wf(),
            phase.wf(),
            bb.proper(),
            in_phase(phase.r as nat, phase.r as nat, *bb),
            bb.move_count < u32::MAX,
            bb.halfmove_clock < u16::MAX,
            lists_legal(moves@, bb@),
            cs == boards_of(*bb, moves@),
            lists_children(*bb, cs),
            sc == (PackedScores { lower: *lower, r: phase.r as nat, data: phase.data@ }),
            forall|i: int| 0 <= i < j ==> sc.winner(#[trigger] cs[i]) != Some(Player::White),
            all_lose == forall|i: int| 0 <= i < j ==> sc.winner(#[trigger] cs[i]) == Some(Player::Black),
        decreases moves@.len() - j,
    {
        proof {
            lemma_listed_legal(moves@, bb@, j as int);
        }
        let w = child_winner(lower, phase, bb, &moves[j]);
        assert(w == sc.winner(cs[j as int]));
        match w {
            Some(Player::White) => {
                proof {
                    assert(is_child(*bb, cs[j as int]));
                }
                return P_WHITE;
            },
            Some(Player::Black) => {},
            None => {
                all_lose = false;
            },
        }
        j = j + 1;
    }
    proof {
        assert forall|c: BitBoard| #[trigger] is_child(*bb, c) implies sc.winner(c) != Some(Player::White) by {
            let i = choose|i: int| 0 <= i < cs.len() && #[trigger] cs[i] == c;
        }
        assert(!can_win(*bb, sc));
        if cs.len() > 0 {
            assert(is_child(*bb, cs[0]));
            if all_lose {
                assert forall|c: BitBoard| #[trigger] is_child(*bb, c) implies sc.winner(c) == Some(Player::Black) by {
                    let i = choose|i: int| 0 <= i < cs.len() && #[trigger] cs[i] == c;
                }
            } else {
                let i = choose|i: int| 0 <= i < cs.len() && sc.winner(#[trigger] cs[i]) != Some(Player::Black);
                assert(is_child(*bb, cs[i]));
            }
        } else {
            assert forall|c: BitBoard| !is_child(*bb, c) by {}
        }
    }
    if moves.len() > 0 && all_lose {
        P_BLACK
    } else {
        P_UNKNOWN
    }
}

/// The entry at an index after a pass.
pub open spec fn packed_after(sc: PackedScores, i: int) -> u8 {
    if entry(sc.data, i) == P_UNKNOWN && has_packed_board(sc.r, i) {
        packed_verdict(packed_board_at(sc.r, i), sc)
    } else {
        entry(sc.data, i)
    }
}

/// The index whose entry decides a position of the phase.
pub open spec fn entry_index(r: nat, c: BitBoard) -> int {
    if c.current_player == Player::White {
        packed_index_of(r, c)
    } else {
        packed_index_of(r, mirrored(c))
    }
}

/// A position is decided by a lower phase, or by an entry of a lower rank.
pub open spec fn ranks_below(r: nat, rank: Seq<int>, c: BitBoard, k: int) -> bool {
    c.white_scored > 4 - r || c.black_scored > 4 - r || rank[entry_index(r, c)] < k
}

/// The entry at `i` rests on entries of lower rank: a won position has a
/// winning move to one, and all moves of a lost position lead to such ones.
pub open spec fn rests(sc: PackedScores, rank: Seq<int>, i: int) -> bool {
    let b = packed_board_at(sc.r, i);
    &&& rank[i] >= 0
    &&& entry(sc.data, i) == P_WHITE ==> exists|c: BitBoard| #[trigger]
        is_child(b, c) && sc.winner(c) == Some(Player::White) && ranks_below(sc.r, rank, c, rank[i])
    &&& entry(sc.data, i) == P_BLACK ==> {
        &&& exists|c: BitBoard| is_child(b, c)
        &&& forall|c: BitBoard| #[trigger]
            is_child(b, c) ==> sc.winner(c) == Some(Player::Black) && ranks_below(sc.r, rank, c, rank[i])
    }
}

/// The ranks show that no decision rests on itself.
pub open spec fn grounded(sc: PackedScores, rank: Seq<int>, n: int) -> bool {
    &&& rank.len() == n
    &&& forall|i: int| 0 <= i < n && has_packed_board(sc.r, i) ==> #[trigger] rests(sc, rank, i)
}

/// Every entry agrees with the entries one move ahead: won positions have a
/// winning move, lost ones only losing moves, undecided ones neither, and the
/// indices without a position are marked. No decision rests on itself.
pub open spec fn packed_solved(sc: PackedScores, n: int) -> bool {
    &&& forall|i: int|
        0 <= i < n ==> #[trigger] entry(sc.data, i) == (if has_packed_board(sc.r, i) {
            packed_verdict(packed_board_at(sc.r, i), sc)
        } else {
            P_INVALID
        })
    &&& exists|rank: Seq<int>| grounded(sc, rank, n)
}

/// What is known to win is decided by a lower phase or by a decided entry.
proof fn lemma_winner_decided(sc: PackedScores, c: BitBoard)
    requires
        sc.winner(c) is Some,
    ensures
        c.white_scored > 4 - sc.r || c.black_scored > 4 - sc.r || entry(sc.data, entry_index(sc.r, c)) != P_UNKNOWN,
{
    reveal(PackedScores::winner);
}

/// The ranks after pass `k`: what was undecided before gets the rank `k`.
spec fn ranks_after(a: PackedScores, rank: Seq<int>, k: int) -> Seq<int> {
    Seq::new(
        rank.len(),
        |i: int|
            if entry(a.data, i) == P_UNKNOWN {
                k
            } else {
                rank[i]
            },
    )
}

/// A pass keeps the decisions grounded.
proof fn lemma_grounded_pass(a: PackedScores, b: PackedScores, rank: Seq<int>, k: int)
    requires
        a.lower == b.lower,
        a.r == b.r,
        a.r <= 4,
        k >= 0,
        forall|i: int| 0 <= i < packed_states(a.r) ==> #[trigger] entry(b.data, i) == packed_after(a, i),
        packed_sound(a, packed_states(a.r) as int),
        grounded(a, rank, packed_states(a.r) as int),
        forall|i: int|
            0 <= i < packed_states(a.r) && entry(a.data, i) != P_UNKNOWN && has_packed_board(a.r, i) ==> #[trigger] rank[i]
                < k,
    ensures
        grounded(b, ranks_after(a, rank, k), packed_states(a.r) as int),
        forall|i: int|
            0 <= i < packed_states(a.r) && entry(b.data, i) != P_UNKNOWN && has_packed_board(a.r, i) ==> #[trigger] ranks_after(
                a,
                rank,
                k,
            )[i] < k + 1,
{
    let n = packed_states(a.r) as int;
    let next = ranks_after(a, rank, k);
    assert forall|i: int| 0 <= i < n && has_packed_board(b.r, i) implies #[trigger] rests(b, next, i) by {
        lemma_rests_pass(a, b, rank, k, i);
    }
    assert forall|i: int| 0 <= i < n && entry(b.data, i) != P_UNKNOWN && has_packed_board(a.r, i) implies #[trigger] next[i]
        < k + 1 by {
        assert(entry(b.data, i) == packed_after(a, i));
        if entry(a.data, i) != P_UNKNOWN {
            assert(rank[i] < k);
        }
    }
}

/// A position of the phase has an entry, and that entry a position.
pub(crate) proof fn lemma_entry_index(r: nat, c: BitBoard)
    requires
        r <= 4,
        c.proper(),
        in_phase(r, r, c),
    ensures
        0 <= entry_index(r, c) < packed_states(r),
        has_packed_board(r, entry_index(r, c)),
{
    if c.current_player == Player::White {
        lemma_packed_digits(r, c);
        let p = crate::phase::plain(c);
        assert(p@.cells =~= c@.cells);
        assert(p.wf());
        assert(is_packed_board(r, entry_index(r, c), p));
    } else {
        let m = crate::symmetry::mirror_board(c);
        lemma_mirrored(m, c);
        law_mirror_wf(m, c);
        lemma_packed_digits(r, m);
        assert(m.move_count as int == m@.move_count && m.halfmove_clock as int == m@.clock);
        assert(is_packed_board(r, entry_index(r, c), m));
    }
}

/// A winner known before pass `k` stays, and what decides it keeps its rank,
/// which is below `k`.
proof fn lemma_child_pass(a: PackedScores, b: PackedScores, rank: Seq<int>, k: int, bb: BitBoard, c: BitBoard)
    requires
        a.lower == b.lower,
        a.r == b.r,
        a.r <= 4,
        forall|i: int| 0 <= i < packed_states(a.r) ==> #[trigger] entry(b.data, i) == packed_after(a, i),
        rank.len() == packed_states(a.r),
        forall|i: int|
            0 <= i < packed_states(a.r) && entry(a.data, i) != P_UNKNOWN && has_packed_board(a.r, i) ==> #[trigger] rank[i]
                < k,
        bb.proper(),
        in_phase(a.r, a.r, bb),
        bb.move_count < u32::MAX,
        bb.halfmove_clock < u16::MAX,
        is_child(bb, c),
        a.winner(c) is Some,
    ensures
        b.winner(c) == a.winner(c),
        ranks_below(a.r, ranks_after(a, rank, k), c, k),
        forall|x: int| #[trigger] ranks_below(a.r, rank, c, x) ==> ranks_below(a.r, ranks_after(a, rank, k), c, x),
{
    lemma_winner_stays(a, b, bb, c);
    lemma_winner_decided(a, c);
    lemma_packed_child(a.r, bb, c);
    if !(c.white_scored > 4 - a.r || c.black_scored > 4 - a.r) {
        lemma_entry_index(a.r, c);
        let j = entry_index(a.r, c);
        assert(rank[j] < k);
        assert(ranks_after(a, rank, k)[j] == rank[j]);
    }
}

proof fn lemma_rests_pass(a: PackedScores, b: PackedScores, rank: Seq<int>, k: int, i: int)
    requires
        a.lower == b.lower,
        a.r == b.r,
        a.r <= 4,
        k >= 0,
        forall|i: int| 0 <= i < packed_states(a.r) ==> #[trigger] entry(b.data, i) == packed_after(a, i),
        grounded(a, rank, packed_states(a.r) as int),
        forall|i: int|
            0 <= i < packed_states(a.r) && entry(a.data, i) != P_UNKNOWN && has_packed_board(a.r, i) ==> #[trigger] rank[i]
                < k,
        0 <= i < packed_states(a.r),
        has_packed_board(a.r, i),
    ensures
        rests(b, ranks_after(a, rank, k), i),
{
    let bb = packed_board_at(a.r, i);
    let next = ranks_after(a, rank, k);
    assert(rests(a, rank, i));
    assert(entry(b.data, i) == packed_after(a, i));
    if entry(a.data, i) != P_UNKNOWN {
        assert(next[i] == rank[i]);
        if entry(a.data, i) == P_WHITE {
            let c = choose|c: BitBoard| #[trigger]
                is_child(bb, c) && a.winner(c) == Some(Player::White) && ranks_below(a.r, rank, c, rank[i]);
            lemma_child_pass(a, b, rank, k, bb, c);
            assert(is_child(bb, c) && b.winner(c) == Some(Player::White) && ranks_below(a.r, next, c, next[i]));
        }
        if entry(a.data, i) == P_BLACK {
            assert forall|c: BitBoard| #[trigger] is_child(bb, c) implies b.winner(c) == Some(Player::Black)
                && ranks_below(a.r, next, c, next[i]) by {
                assert(a.winner(c) == Some(Player::Black) && ranks_below(a.r, rank, c, rank[i]));
                lemma_child_pass(a, b, rank, k, bb, c);
            }
        }
    } else {
        assert(next[i] == k);
        if can_win(bb, a) {
            let c = choose|c: BitBoard| #[trigger] is_child(bb, c) && a.winner(c) == Some(Player::White);
            lemma_child_pass(a, b, rank, k, bb, c);
            assert(is_child(bb, c) && b.winner(c) == Some(Player::White) && ranks_below(a.r, next, c, next[i]));
        } else if must_lose(bb, a) {
            assert forall|c: BitBoard| #[trigger] is_child(bb, c) implies b.winner(c) == Some(Player::Black)
                && ranks_below(a.r, next, c, next[i]) by {
                assert(a.winner(c) == Some(Player::Black));
                lemma_child_pass(a, b, rank, k, bb, c);
            }
        }
    }
}

/// Marks the indices that no position has.
pub fn packed_mark_invalid(phase: &mut PackedPhase)
    requires
        old(phase).wf(),
    ensures
        final(phase).wf(),
        final(phase).r == old(phase).r,
        forall|i: int|
            0 <= i < old(phase).n_states ==> #[trigger] entry(final(phase).data@, i) == (if has_packed_board(
                old(phase).r as nat,
                i,
            ) {
                entry(old(phase).data@, i)
            } else {
                P_INVALID
            }),
{
    let ghost start = *phase;
    let n: usize = phase.n_states;
    let mut idx: usize = 0;
    while idx < n
        invariant
            phase.wf(),
            phase.r == start.r,
            n == phase.n_states,
            idx <= n,
            forall|i: int|
                0 <= i < n ==> #[trigger] entry(phase.data@, i) == (if i >= idx || has_packed_board(start.r as nat, i) {
                    entry(start.data@, i)
                } else {
                    P_INVALID
                }),
        decreases n - idx,
    {
        match phase.decode(idx) {
            None => {
                PackedPhase::set(&mut phase.data, idx, P_INVALID);
            },
            Some(b) => {
                proof {
                    lemma_packed_board(start.r as nat, idx as int, b);
                }
            },
        }
        idx = idx + 1;
    }
}

/// The decisions of a pass among the first `n` indices, in order.
pub open spec fn packed_decisions(sc: PackedScores, n: int) -> Seq<(usize, u8)>
    decreases n,
{
    if n <= 0 {
        Seq::empty()
    } else {
        let before = packed_decisions(sc, n - 1);
        if entry(sc.data, n - 1) == P_UNKNOWN && packed_after(sc, n - 1) != P_UNKNOWN {
            before.push(((n - 1) as usize, packed_after(sc, n - 1)))
        } else {
            before
        }
    }
}

/// One pass: examines every undecided position against the entries as they
/// were before the pass, then writes the decisions. Returns their number.
#[verifier::rlimit(30)]
pub fn packed_pass(lower: &Tablebase, phase: &mut PackedPhase) -> (assigned: usize)
    requires
        lower.wf(),
        old(phase).wf(),
    ensures
        final(phase).wf(),
        final(phase).r == old(phase).r,
        ({
            let sc = PackedScores { lower: *lower, r: old(phase).r as nat, data: old(phase).data@ };
            &&& forall|i: int|
                0 <= i < old(phase).n_states ==> #[trigger] entry(final(phase).data@, i) == packed_after(sc, i)
            &&& assigned == packed_decisions(sc, old(phase).n_states as int).len()
        }),
{
    let ghost start = *phase;
    let ghost sc = PackedScores { lower: *lower, r: start.r as nat, data: start.data@ };
    let n: usize = phase.n_states;
    let mut out: Vec<(usize, u8)> = Vec::new();
    let mut idx: usize = 0;
    while idx < n
        invariant
            lower.wf(),
            phase.wf(),
            *phase == start,
            n == start.n_states,
            idx <= n,
            sc == (PackedScores { lower: *lower, r: start.r as nat, data: start.data@ }),
            out@ == packed_decisions(sc, idx as int),
        decreases n - idx,
    {
        if phase.get(idx) == P_UNKNOWN {
            match phase.decode(idx) {
                Some(bb) => {
                    proof {
                        lemma_packed_board(start.r as nat, idx as int, bb);
                    }
                    let v: u8 = packed_determine(lower, phase, &bb);
                    if v != P_UNKNOWN {
                        out.push((idx, v));
                    }
                },
                None => {
                    proof {
                        if has_packed_board(start.r as nat, idx as int) {
                            let b = packed_board_at(start.r as nat, idx as int);
                            assert(packed_index_of(start.r as nat, b) == idx);
                        }
                    }
                },
            }
        }
        idx = idx + 1;
    }
    let mut k: usize = 0;
    proof {
        lemma_packed_decisions(sc, n as int);
        assert forall|i: int| 0 <= i < n implies #[trigger] entry(phase.data@, i) == decided_entry(sc, out@, 0, i) by {}
    }
    while k < out.len()
        invariant
            k <= out@.len(),
            phase.wf(),
            phase.r == start.r,
            n == phase.n_states,
            n == start.n_states,
            out@ == packed_decisions(sc, n as int),
            forall|j: int|
                0 <= j < out@.len() ==> (#[trigger] out@[j]).0 < n && out@[j].1 == packed_after(sc, out@[j].0 as int)
                    && out@[j].1 < 4,
            forall|i: int| 0 <= i < n ==> #[trigger] entry(phase.data@, i) == decided_entry(sc, out@, k as int, i),
        decreases out@.len() - k,
    {
        let (i, v): (usize, u8) = out[k];
        PackedPhase::set(&mut phase.data, i, v);
        k = k + 1;
    }
    proof {
        assert forall|i: int| 0 <= i < n implies #[trigger] entry(phase.data@, i) == packed_after(sc, i) by {
            lemma_decided_entry(sc, out@, out@.len() as int, i);
            if entry(sc.data, i) == P_UNKNOWN && packed_after(sc, i) != P_UNKNOWN {
                let k = choose|k: int| 0 <= k < out@.len() && (#[trigger] out@[k]).0 == i;
            }
        }
    }
    out.len()
}

/// The entry at `i` after the first `k` decisions.
spec fn decided_entry(sc: PackedScores, out: Seq<(usize, u8)>, k: int, i: int) -> u8
    decreases k,
{
    if k <= 0 {
        entry(sc.data, i)
    } else if out[k - 1].0 == i {
        out[k - 1].1
    } else {
        decided_entry(sc, out, k - 1, i)
    }
}

proof fn lemma_packed_decisions(sc: PackedScores, n: int)
    requires
        0 <= n <= usize::MAX,
    ensures
        ({
            let out = packed_decisions(sc, n);
            &&& out.len() <= n
            &&& forall|k: int|
                0 <= k < out.len() ==> 0 <= (#[trigger] out[k]).0 < n && out[k].1 == packed_after(sc, out[k].0 as int)
                    && out[k].1 < 4 && entry(sc.data, out[k].0 as int) == P_UNKNOWN
            &&& forall|i: int|
                0 <= i < n && entry(sc.data, i) == P_UNKNOWN && #[trigger] packed_after(sc, i) != P_UNKNOWN ==> exists|
                    k: int,
                | 0 <= k < out.len() && (#[trigger] out[k]).0 == i
        }),
    decreases n,
{
    if n > 0 {
        lemma_packed_decisions(sc, n - 1);
        let before = packed_decisions(sc, n - 1);
        let out = packed_decisions(sc, n);
        assert forall|i: int|
            0 <= i < n && entry(sc.data, i) == P_UNKNOWN && #[trigger] packed_after(sc, i) != P_UNKNOWN implies exists|k: int|
            0 <= k < out.len() && (#[trigger] out[k]).0 == i by {
            if i < n - 1 {
                let k = choose|k: int| 0 <= k < before.len() && (#[trigger] before[k]).0 == i;
                assert(out[k].0 == i);
            } else {
                assert(out[before.len() as int].0 == i);
            }
        }
    }
}

proof fn lemma_decided_entry(sc: PackedScores, out: Seq<(usize, u8)>, n: int, i: int)
    requires
        0 <= n <= out.len(),
        forall|j: int| 0 <= j < out.len() ==> (#[trigger] out[j]).1 == packed_after(sc, out[j].0 as int),
    ensures
        (exists|k: int| 0 <= k < n && (#[trigger] out[k]).0 == i) ==> decided_entry(sc, out, n, i) == packed_after(sc, i),
        !(exists|k: int| 0 <= k < n && (#[trigger] out[k]).0 == i) ==> decided_entry(sc, out, n, i) == entry(sc.data, i),
    decreases n,
{
    if n > 0 {
        lemma_decided_entry(sc, out, n - 1, i);
        if out[n - 1].0 != i {
            if exists|k: int| 0 <= k < n && (#[trigger] out[k]).0 == i {
                let k = choose|k: int| 0 <= k < n && (#[trigger] out[k]).0 == i;
                assert(0 <= k < n - 1 && out[k].0 == i);
            }
            if exists|k: int| 0 <= k < n - 1 && (#[trigger] out[k]).0 == i {
                let k = choose|k: int| 0 <= k < n - 1 && (#[trigger] out[k]).0 == i;
                assert(0 <= k < n && out[k].0 == i);
            }
        } else {
            assert(out[n - 1].0 == i);
        }
    }
}

/// The number of undecided entries among the first `n`.
spec fn undecided(data: Seq<u8>, n: int) -> nat
    decreases n,
{
    if n <= 0 {
        0
    } else {
        undecided(data, n - 1) + if entry(data, n - 1) == P_UNKNOWN { 1nat } else { 0nat }
    }
}

proof fn lemma_undecided(a: PackedScores, b: Seq<u8>, n: int)
    requires
        forall|i: int| 0 <= i < n ==> #[trigger] entry(b, i) == packed_after(a, i),
    ensures
        undecided(b, n) + packed_decisions(a, n).len() == undecided(a.data, n),
    decreases n,
{
    if n > 0 {
        lemma_undecided(a, b, n - 1);
    }
}

/// Decided entries agree with the entries one move ahead.
spec fn packed_sound(sc: PackedScores, n: int) -> bool {
    forall|i: int|
        0 <= i < n ==> if has_packed_board(sc.r, i) {
            #[trigger] entry(sc.data, i) == P_UNKNOWN || entry(sc.data, i) == packed_verdict(packed_board_at(sc.r, i), sc)
        } else {
            entry(sc.data, i) == P_INVALID
        }
}

/// A winner that is known stays the same through a pass.
proof fn lemma_winner_stays(a: PackedScores, b: PackedScores, bb: BitBoard, c: BitBoard)
    requires
        a.lower == b.lower,
        a.r == b.r,
        forall|i: int| 0 <= i < packed_states(a.r) ==> #[trigger] entry(b.data, i) == packed_after(a, i),
        bb.proper(),
        in_phase(a.r, a.r, bb),
        bb.move_count < u32::MAX,
        bb.halfmove_clock < u16::MAX,
        is_child(bb, c),
        a.winner(c) is Some,
    ensures
        b.winner(c) == a.winner(c),
{
    reveal(PackedScores::winner);
    lemma_packed_child(a.r, bb, c);
    if !(c.white_scored > 4 - a.r || c.black_scored > 4 - a.r) {
        if c.current_player == Player::White {
            lemma_packed_digits(a.r, c);
        } else {
            let m = crate::symmetry::mirror_board(c);
            lemma_mirrored(m, c);
            law_mirror_wf(m, c);
            lemma_packed_digits(a.r, m);
        }
    }
}

proof fn lemma_packed_sound(a: PackedScores, b: PackedScores)
    requires
        a.lower == b.lower,
        a.r == b.r,
        forall|i: int| 0 <= i < packed_states(a.r) ==> #[trigger] entry(b.data, i) == packed_after(a, i),
        packed_sound(a, packed_states(a.r) as int),
    ensures
        packed_sound(b, packed_states(a.r) as int),
{
    let n = packed_states(a.r) as int;
    assert forall|i: int| 0 <= i < n implies (if has_packed_board(b.r, i) {
        #[trigger] entry(b.data, i) == P_UNKNOWN || entry(b.data, i) == packed_verdict(packed_board_at(b.r, i), b)
    } else {
        entry(b.data, i) == P_INVALID
    }) by {
        assert(entry(a.data, i) == entry(a.data, i));
        if has_packed_board(a.r, i) {
            let bb = packed_board_at(a.r, i);
            if packed_verdict(bb, a) == P_WHITE {
                let c = choose|c: BitBoard| #[trigger] is_child(bb, c) && a.winner(c) == Some(Player::White);
                lemma_winner_stays(a, b, bb, c);
                assert(can_win(bb, b));
            } else if packed_verdict(bb, a) == P_BLACK {
                assert forall|c: BitBoard| #[trigger] is_child(bb, c) implies b.winner(c) == Some(Player::Black) by {
                    lemma_winner_stays(a, b, bb, c);
                }
                assert(must_lose(bb, b));
                assert(!can_win(bb, b));
            }
        }
    }
}

/// Solves the phase with `r` barrels left on each side.
pub fn solve_packed(lower: &Tablebase, r: usize) -> (p: PackedPhase)
    requires
        lower.wf(),
        r <= 4,
        packed_states(r as nat) <= usize::MAX - 3,
    ensures
        p.wf(),
        p.r == r,
        packed_solved(PackedScores { lower: *lower, r: r as nat, data: p.data@ }, p.n_states as int),
{
    let mut phase = PackedPhase::new(r);
    packed_mark_invalid(&mut phase);
    let n: usize = phase.n_states;
    let ghost mut sc = PackedScores { lower: *lower, r: r as nat, data: phase.data@ };
    let ghost mut rank: Seq<int> = Seq::new(n as nat, |i: int| 0int);
    let ghost mut pass: int = 1;
    proof {
        assert forall|i: int| 0 <= i < n && has_packed_board(sc.r, i) implies #[trigger] rests(sc, rank, i) by {
            assert(entry(sc.data, i) == P_UNKNOWN);
        }
    }
    let mut assigned: usize = 1;
    while assigned > 0
        invariant
            r <= 4,
            n == packed_states(r as nat),
            pass >= 1,
            grounded(sc, rank, n as int),
            forall|i: int|
                0 <= i < n && entry(sc.data, i) != P_UNKNOWN && has_packed_board(sc.r, i) ==> #[trigger] rank[i] < pass,
            lower.wf(),
            phase.wf(),
            phase.r == r,
            n == phase.n_states,
            sc == (PackedScores { lower: *lower, r: r as nat, data: phase.data@ }),
            packed_sound(sc, n as int),
            assigned == 0 ==> packed_solved(sc, n as int),
        decreases undecided(phase.data@, n as int) + if assigned > 0 { 1int } else { 0int },
    {
        let ghost before = sc;
        assigned = packed_pass(lower, &mut phase);
        proof {
            sc = PackedScores { lower: *lower, r: r as nat, data: phase.data@ };
            lemma_undecided(before, phase.data@, n as int);
            lemma_grounded_pass(before, sc, rank, pass);
            rank = ranks_after(before, rank, pass);
            pass = pass + 1;
            lemma_packed_sound(before, sc);
            if assigned == 0 {
                lemma_packed_decisions(before, n as int);
                assert forall|i: int| 0 <= i < n implies #[trigger] entry(sc.data, i) == (if has_packed_board(sc.r, i) {
                    packed_verdict(packed_board_at(sc.r, i), sc)
                } else {
                    P_INVALID
                }) by {
                    assert(entry(sc.data, i) == packed_after(before, i));
                    if has_packed_board(sc.r, i) && entry(sc.data, i) == P_UNKNOWN {
                        lemma_verdict_same(before, sc, packed_board_at(sc.r, i));
                    }
                }
            }
        }
    }
    phase
}

/// A pass without decisions changes no verdict.
proof fn lemma_verdict_same(a: PackedScores, b: PackedScores, bb: BitBoard)
    requires
        a.lower == b.lower,
        a.r == b.r,
        forall|i: int| 0 <= i < packed_states(a.r) ==> #[trigger] entry(b.data, i) == packed_after(a, i),
        packed_decisions(a, packed_states(a.r) as int).len() == 0,
        packed_states(a.r) <= usize::MAX,
        bb.proper(),
        in_phase(a.r, a.r, bb),
        bb.move_count < u32::MAX,
        bb.halfmove_clock < u16::MAX,
    ensures
        packed_verdict(bb, b) == packed_verdict(bb, a),
{
    lemma_packed_decisions(a, packed_states(a.r) as int);
    assert forall|c: BitBoard| #[trigger] is_child(bb, c) implies b.winner(c) == a.winner(c) by {
        reveal(PackedScores::winner);
        lemma_packed_child(a.r, bb, c);
        if !(c.white_scored > 4 - a.r || c.black_scored > 4 - a.r) {
            if c.current_player == Player::White {
                lemma_packed_digits(a.r, c);
            } else {
                let m = crate::symmetry::mirror_board(c);
                lemma_mirrored(m, c);
                law_mirror_wf(m, c);
                lemma_packed_digits(a.r, m);
            }
        }
    }
    if can_win(bb, a) {
        let c = choose|c: BitBoard| #[trigger] is_child(bb, c) && a.winner(c) == Some(Player::White);
        assert(is_child(bb, c) && b.winner(c) == Some(Player::White));
    }
    if can_win(bb, b) {
        let c = choose|c: BitBoard| #[trigger] is_child(bb, c) && b.winner(c) == Some(Player::White);
        assert(is_child(bb, c) && a.winner(c) == Some(Player::White));
    }
}

} // verus!
