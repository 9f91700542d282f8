//! The packed solution of a symmetric phase and its full solution agree on who
//! wins.
use vstd::prelude::*;
use crate::bitboard::BitBoard;
use crate::board::Player;
use crate::packed::{entry, is_mirror_of, lemma_mirrored, mirrored, packed_index_of, packed_states, P_BLACK, P_WHITE};
use crate::packed_solve::{
    can_win, entry_index, grounded, has_packed_board, is_packed_board, lemma_entry_index, lemma_packed_board,
    must_lose, owner, packed_board_at, packed_solved, packed_verdict, ranks_below, rests, PackedScores,
};
use crate::phase::{in_phase, index_of, is_black_win, is_white_win, plain, states_of, win_dist, MAX_DIST};
use crate::retrograde::{
    board_at, has_board, is_child, lemma_board_at, lemma_outlook, lemma_outlook_range, loses, outlook_of, settled,
    solved, wins, Outlook, Scores,
};
use crate::symmetry::{law_mirror_wf, mirror_board};
use crate::table_symmetry::{law_mirrored_solution, lemma_in_or_below, lemma_same_score, lower_mirrored, twins};
use crate::tablebase::negated;

verus! {

/// A full solution without wins beyond the longest distance a value can hold.
pub open spec fn all_in_reach(f: Scores) -> bool {
    forall|i: int|
        0 <= i < f.vals.len() && #[trigger] has_board(f.wr, f.br, i) ==> match outlook_of(board_at(f.wr, f.br, i), f) {
            Outlook::Win(d) => d <= MAX_DIST,
            Outlook::Loss(d) => d <= MAX_DIST,
            _ => true,
        }
}

/// A packed and a full solution of the same symmetric phase over the same
/// tables.
#[verifier::opaque]
pub open spec fn matched(p: PackedScores, f: Scores) -> bool {
    &&& p.lower == f.lower
    &&& p.r == f.wr
    &&& p.r == f.br
    &&& 1 <= p.r <= 4
    &&& packed_solved(p, packed_states(p.r) as int)
    &&& f.vals.len() == states_of(f.wr, f.br)
    &&& solved(f)
    &&& lower_mirrored(f, f)
    &&& all_in_reach(f)
}

/// The full value of a position of the phase is what its outlook says.
proof fn lemma_full_value(p: PackedScores, f: Scores, b: BitBoard)
    requires
        matched(p, f),
        b.proper(),
        in_phase(p.r, p.r, b),
        b.move_count == 0,
        b.halfmove_clock == 0,
    ensures
        f.of(b) == crate::retrograde::final_value(outlook_of(plain(b), f), b.current_player),
        match outlook_of(plain(b), f) {
            Outlook::Win(d) => 1 <= d <= MAX_DIST,
            Outlook::Loss(d) => 1 <= d <= MAX_DIST,
            _ => true,
        },
        plain(b).proper(),
        twins(plain(b), b),
{
    reveal(matched);
    reveal(Scores::of);
    let x = plain(b);
    assert(x@.cells =~= b@.cells);
    assert(x.proper());
    let i = index_of(f.br, b);
    crate::phase::lemma_index_digits(f.wr, f.br, b);
    lemma_board_at(f.wr, f.br, i, x);
    assert(settled(f, i)) by {
        assert(f.vals[i] == f.vals[i]);
    }
    lemma_outlook_range(x, f);
    assert(has_board(f.wr, f.br, i));
}

/// A full value and the value of the mirror.
proof fn lemma_full_mirror(p: PackedScores, f: Scores, b: BitBoard)
    requires
        matched(p, f),
        b.proper(),
        in_phase(p.r, p.r, b),
    ensures
        f.of(b) == negated(f.of(mirrored(b))),
        is_mirror_of(mirrored(b), b),
        mirrored(b).proper(),
        in_phase(p.r, p.r, mirrored(b)),
        mirrored(b).current_player == b.current_player.opponent(),
{
    reveal(matched);
    reveal(Scores::of);
    let m = mirror_board(b);
    lemma_mirrored(m, b);
    law_mirror_wf(m, b);
    law_mirrored_solution(f, f, b);
}

/// The full solution's winner of a position.
pub open spec fn full_winner(f: Scores, b: BitBoard) -> Option<Player> {
    if is_white_win(f.of(b)) {
        Some(Player::White)
    } else if is_black_win(f.of(b)) {
        Some(Player::Black)
    } else {
        None
    }
}

/// Both solutions read the same lower tables.
proof fn lemma_lower_agrees(p: PackedScores, f: Scores, c: BitBoard)
    requires
        matched(p, f),
        c.white_scored > 4 - p.r || c.black_scored > 4 - p.r,
    ensures
        p.winner(c) == full_winner(f, c),
{
    reveal(matched);
    reveal(Scores::of);
    reveal(PackedScores::winner);
}

/// The packed winner of a position of the phase, by its entry.
proof fn lemma_winner_entry(p: PackedScores, c: BitBoard)
    requires
        c.proper(),
        in_phase(p.r, p.r, c),
    ensures
        p.winner(c) == (match c.current_player {
            Player::White => owner(entry(p.data, entry_index(p.r, c))),
            Player::Black => match owner(entry(p.data, entry_index(p.r, c))) {
                Some(q) => Some(q.opponent()),
                None => None,
            },
        }),
{
    reveal(PackedScores::winner);
}

/// The position with white to move that an entry is about: the position itself
/// or its mirror, history aside.
proof fn lemma_entry_board(p: PackedScores, f: Scores, c: BitBoard)
    requires
        matched(p, f),
        c.proper(),
        in_phase(p.r, p.r, c),
    ensures
        ({
            let x = packed_board_at(p.r, entry_index(p.r, c));
            &&& is_packed_board(p.r, entry_index(p.r, c), x)
            &&& c.current_player == Player::White ==> twins(x, c) && f.of(x) == f.of(c)
            &&& c.current_player == Player::Black ==> x == mirrored(c) && f.of(c) == negated(f.of(x))
        }),
        0 <= entry_index(p.r, c) < packed_states(p.r),
        has_packed_board(p.r, entry_index(p.r, c)),
{
    assert(p.r <= 4) by {
        reveal(matched);
    }
    lemma_entry_index(p.r, c);
    let i = entry_index(p.r, c);
    if c.current_player == Player::White {
        let x = plain(c);
        assert(x@.cells =~= c@.cells);
        assert(x.proper());
        lemma_packed_board(p.r, i, x);
        lemma_same_score(f, x, c);
    } else {
        lemma_full_mirror(p, f, c);
        let m = mirrored(c);
        assert(m.move_count as int == m@.move_count && m.halfmove_clock as int == m@.clock);
        lemma_packed_board(p.r, i, m);
    }
}

/// What the packed solution says of an entry, the full solution says too.
proof fn lemma_packed_implies_full(p: PackedScores, f: Scores, rank: Seq<int>, i: int)
    requires
        matched(p, f),
        grounded(p, rank, packed_states(p.r) as int),
        0 <= i < packed_states(p.r),
        has_packed_board(p.r, i),
    ensures
        entry(p.data, i) == P_WHITE ==> is_white_win(f.of(packed_board_at(p.r, i))),
        entry(p.data, i) == P_BLACK ==> is_black_win(f.of(packed_board_at(p.r, i))),
    decreases rank[i], 1int,
{
    let x = packed_board_at(p.r, i);
    assert(is_packed_board(p.r, i, x));
    assert(rests(p, rank, i));
    lemma_full_value(p, f, x);
    assert(plain(x) == x);
    lemma_outlook(x, f);
    if entry(p.data, i) == P_WHITE {
        let c = choose|c: BitBoard| #[trigger]
            is_child(x, c) && p.winner(c) == Some(Player::White) && ranks_below(p.r, rank, c, rank[i]);
        lemma_child_agrees(p, f, rank, i, x, c);
        assert(is_child(x, c) && wins(Player::White, f.of(c)));
        assert(!loses(Player::White, f.of(c)));
        match outlook_of(x, f) {
            Outlook::Win(d) => {},
            Outlook::Stuck => {},
            Outlook::Loss(d) => {
                assert(loses(Player::White, f.of(c)));
            },
            Outlook::Neither => {
                assert(!wins(Player::White, f.of(c)));
            },
        }
    }
    if entry(p.data, i) == P_BLACK {
        assert forall|c: BitBoard| #[trigger] is_child(x, c) implies loses(Player::White, f.of(c)) && !wins(
            Player::White,
            f.of(c),
        ) by {
            assert(p.winner(c) == Some(Player::Black) && ranks_below(p.r, rank, c, rank[i]));
            lemma_child_agrees(p, f, rank, i, x, c);
        }
        let c = choose|c: BitBoard| is_child(x, c);
        assert(is_child(x, c));
        match outlook_of(x, f) {
            Outlook::Loss(d) => {},
            Outlook::Stuck => {},
            Outlook::Win(d) => {
                let e = choose|e: BitBoard| #[trigger]
                    is_child(x, e) && wins(Player::White, f.of(e)) && win_dist(f.of(e)) + 1 == d;
            },
            Outlook::Neither => {
                let e = choose|e: BitBoard| #[trigger] is_child(x, e) && !loses(Player::White, f.of(e));
            },
        }
    }
}

/// A child whose winner the packed solution knows, by a lower rank, has that
/// winner in the full solution.
proof fn lemma_child_agrees(p: PackedScores, f: Scores, rank: Seq<int>, i: int, x: BitBoard, c: BitBoard)
    requires
        matched(p, f),
        grounded(p, rank, packed_states(p.r) as int),
        0 <= i < packed_states(p.r),
        has_packed_board(p.r, i),
        x == packed_board_at(p.r, i),
        is_packed_board(p.r, i, x),
        is_child(x, c),
        p.winner(c) is Some,
        ranks_below(p.r, rank, c, rank[i]),
    ensures
        full_winner(f, c) == p.winner(c),
    decreases rank[i], 0int,
{
    let sc = Scores { lower: p.lower, wr: p.r, br: p.r, vals: Seq::empty() };
    lemma_in_or_below(sc, x, c);
    if c.white_scored > 4 - p.r || c.black_scored > 4 - p.r {
        lemma_lower_agrees(p, f, c);
    } else {
        lemma_winner_entry(p, c);
        lemma_entry_board(p, f, c);
        let j = entry_index(p.r, c);
        assert(rests(p, rank, j));
        lemma_packed_implies_full(p, f, rank, j);
    }
}

/// A position with white to move that the full solution decides within `d`
/// moves is decided alike by its entry.
proof fn lemma_full_implies_packed(p: PackedScores, f: Scores, x: BitBoard, d: int)
    requires
        matched(p, f),
        is_packed_board(p.r, packed_index_of(p.r, x), x),
        full_winner(f, x) is Some,
        win_dist(f.of(x)) <= d,
    ensures
        p.winner(x) == full_winner(f, x),
    decreases d, 0int,
{
    lemma_full_value(p, f, x);
    assert(plain(x) == x);
    lemma_outlook(x, f);
    lemma_winner_entry(p, x);
    lemma_entry_board(p, f, x);
    let i = packed_index_of(p.r, x);
    lemma_packed_board(p.r, i, x);
    assert(entry(p.data, i) == packed_verdict(x, p)) by {
        reveal(matched);
        assert(entry(p.data, i) == entry(p.data, i));
    }
    let o = outlook_of(x, f);
    match o {
        Outlook::Win(k) => {
            let c = choose|c: BitBoard| #[trigger]
                is_child(x, c) && wins(Player::White, f.of(c)) && win_dist(f.of(c)) + 1 == k;
            lemma_win_distance(f, x, k);
            lemma_child_follows(p, f, x, c, d);
            assert(is_child(x, c) && p.winner(c) == Some(Player::White));
            assert(can_win(x, p));
        },
        Outlook::Loss(k) => {
            lemma_win_distance(f, x, k);
            assert forall|c: BitBoard| #[trigger] is_child(x, c) implies p.winner(c) == Some(Player::Black) by {
                assert(loses(Player::White, f.of(c)) && win_dist(f.of(c)) + 1 <= k);
                lemma_child_follows(p, f, x, c, d);
            }
            let c = choose|c: BitBoard| #[trigger] is_child(x, c) && win_dist(f.of(c)) + 1 == k;
            assert(is_child(x, c));
            assert(must_lose(x, p));
            assert(!can_win(x, p));
        },
        Outlook::Stuck => {},
        Outlook::Neither => {},
    }
}

/// The distance in a value is the distance of the outlook.
proof fn lemma_win_distance(f: Scores, x: BitBoard, k: int)
    requires
        1 <= k <= MAX_DIST,
        f.of(x) == crate::retrograde::win_value(Player::White, k) || f.of(x) == crate::retrograde::win_value(
            Player::Black,
            k,
        ),
    ensures
        win_dist(f.of(x)) == k,
{
}

/// A child that the full solution decides in fewer moves has that winner in the
/// packed solution.
proof fn lemma_child_follows(p: PackedScores, f: Scores, x: BitBoard, c: BitBoard, d: int)
    requires
        matched(p, f),
        is_packed_board(p.r, packed_index_of(p.r, x), x),
        is_child(x, c),
        full_winner(f, c) is Some,
        win_dist(f.of(c)) < d,
    ensures
        p.winner(c) == full_winner(f, c),
    decreases d - 1, 1int,
{
    let sc = Scores { lower: p.lower, wr: p.r, br: p.r, vals: Seq::empty() };
    lemma_in_or_below(sc, x, c);
    if c.white_scored > 4 - p.r || c.black_scored > 4 - p.r {
        lemma_lower_agrees(p, f, c);
    } else {
        lemma_entry_board(p, f, c);
        let y = packed_board_at(p.r, entry_index(p.r, c));
        assert(full_winner(f, y) is Some && win_dist(f.of(y)) == win_dist(f.of(c)));
        lemma_full_implies_packed(p, f, y, d - 1);
        lemma_winner_entry(p, c);
        lemma_winner_entry(p, y);
        assert(packed_index_of(p.r, y) == entry_index(p.r, c));
    }
}

/// The packed solution of a symmetric phase agrees with the full solution: a
/// position is won, lost or drawn in the one as it is in the other, as long as
/// every win is close enough for its distance to be held.
pub proof fn law_packed_agrees(p: PackedScores, f: Scores, b: BitBoard)
    requires
        matched(p, f),
        b.proper(),
        in_phase(p.r, p.r, b),
    ensures
        p.winner(b) == full_winner(f, b),
{
    lemma_entry_board(p, f, b);
    lemma_winner_entry(p, b);
    let i = entry_index(p.r, b);
    let x = packed_board_at(p.r, i);
    lemma_winner_entry(p, x);
    assert(packed_index_of(p.r, x) == i);
    if full_winner(f, x) is Some {
        lemma_full_implies_packed(p, f, x, win_dist(f.of(x)) as int);
    } else {
        let rank = choose|rank: Seq<int>| grounded(p, rank, packed_states(p.r) as int);
        assert(grounded(p, rank, packed_states(p.r) as int)) by {
            reveal(matched);
        }
        lemma_packed_implies_full(p, f, rank, i);
    }
}

} // verus!
