//! Solved tables and the colour symmetry: the solution of a phase is the
//! mirrored solution of the mirrored phase.
use vstd::prelude::*;
use crate::bitboard::BitBoard;
use crate::board::Player;
use crate::convert::law_bitboard_is_its_view;
use crate::mirror::{law_mirror_apply, law_mirror_involution, law_mirror_legal, mirror_action, mirror_state};
use crate::packed::{is_mirror_of, lemma_mirrored, mirrored};
use crate::phase::{core_of, in_phase, index_of, plain, states_of, win_dist, V_DRAW, V_INVALID};
use crate::retrograde::{
    board_at, final_value, has_board, has_outlook, is_child, law_solution_unique, lemma_board_at, lemma_board_ok,
    lemma_child_action, lemma_outlook, lemma_outlook_range, loses, outlook_of, settled, solved, wins, Outlook,
    Scores,
};
use crate::rules::{Action, GameState};
use crate::symmetry::{law_mirror_wf, mirror_board};
use crate::tablebase::negated;

verus! {

/// Two boards are the same but for their history.
pub open spec fn twins(a: BitBoard, b: BitBoard) -> bool {
    a.inv() && b.inv() && core_of(a@) == core_of(b@)
}

pub proof fn lemma_twins(a: BitBoard, b: BitBoard)
    requires
        twins(a, b),
    ensures
        plain(a) == plain(b),
        mirrored(a) == mirrored(b),
        a.proper() == b.proper(),
{
    let x = plain(a);
    let y = plain(b);
    assert(x@.cells =~= a@.cells && y@.cells =~= b@.cells);
    assert(core_of(a@).cells == a@.cells && core_of(b@).cells == b@.cells);
    assert(x@ == core_of(a@) && y@ == core_of(b@));
    law_bitboard_is_its_view(x, y);
    let m = mirror_board(a);
    lemma_mirrored(m, a);
    assert(core_of(mirror_state(a@)) == core_of(mirror_state(b@))) by {
        assert(mirror_state(a@).cells =~= mirror_state(b@).cells);
    }
    assert(is_mirror_of(m, b));
    lemma_mirrored(m, b);
}

/// Tables do not look at the history.
pub proof fn lemma_same_score(sc: Scores, a: BitBoard, b: BitBoard)
    requires
        twins(a, b),
    ensures
        sc.of(a) == sc.of(b),
        sc.lower.value_of(a) == sc.lower.value_of(b),
        index_of(sc.br, a) == index_of(sc.br, b),
{
    reveal(Scores::of);
    lemma_twins(a, b);
    let x = plain(a);
    let y = plain(b);
    assert(a.white_barrels == x.white_barrels && b.white_barrels == y.white_barrels);
    assert(a.black_barrels == x.black_barrels && b.black_barrels == y.black_barrels);
    assert(a.white_pail == x.white_pail && b.white_pail == y.white_pail);
    assert(a.black_pail == x.black_pail && b.black_pail == y.black_pail);
    assert(a.current_player == x.current_player && b.current_player == y.current_player);
    assert(a.awaiting_barrel == x.awaiting_barrel && b.awaiting_barrel == y.awaiting_barrel);
    assert(a.white_scored == x.white_scored && b.white_scored == y.white_scored);
    assert(a.black_scored == x.black_scored && b.black_scored == y.black_scored);
    assert(a.white_barrels_off_board == x.white_barrels_off_board && b.white_barrels_off_board
        == y.white_barrels_off_board);
    assert(a.black_barrels_off_board == x.black_barrels_off_board && b.black_barrels_off_board
        == y.black_barrels_off_board);
}

/// What is legal, and where it leads, does not depend on the history.
pub proof fn lemma_core_acts(s: GameState, t: GameState, a: Action)
    requires
        core_of(s) == core_of(t),
        s.legal(a),
    ensures
        t.legal(a),
        core_of(s.apply(a)) == core_of(t.apply(a)),
{
    assert(s.cells == core_of(s).cells && t.cells == core_of(t).cells);
}

/// Twins have twin children.
pub proof fn lemma_twin_child(b: BitBoard, t: BitBoard, c: BitBoard) -> (d: BitBoard)
    requires
        b.proper(),
        b.move_count < u32::MAX,
        b.halfmove_clock < u16::MAX,
        t.proper(),
        t.move_count < u32::MAX,
        t.halfmove_clock < u16::MAX,
        twins(b, t),
        is_child(b, c),
    ensures
        is_child(t, d),
        twins(c, d),
        c.proper(),
        d.proper(),
{
    let a = lemma_child_action(b, c);
    lemma_core_acts(b@, t@, a);
    let d = t.acted(a);
    t.lemma_acted(a);
    assert(is_child(t, d)) by {
        reveal(is_child);
    }
    d
}

/// The mirror of a child is a child of the mirror, history aside.
pub proof fn lemma_mirror_child(b: BitBoard, c: BitBoard) -> (d: BitBoard)
    requires
        b.proper(),
        b.move_count < u32::MAX,
        b.halfmove_clock < u16::MAX,
        is_child(b, c),
    ensures
        is_child(mirrored(b), d),
        twins(d, mirrored(c)),
        c.proper(),
        d.proper(),
        is_mirror_of(mirrored(b), b),
        is_mirror_of(mirrored(c), c),
{
    let a = lemma_child_action(b, c);
    let m = mirror_board(b);
    lemma_mirrored(m, b);
    law_mirror_wf(m, b);
    let n = mirror_board(c);
    lemma_mirrored(n, c);
    law_mirror_legal(b@, a);
    law_mirror_apply(b@, a);
    let s = mirror_state(b@);
    let x = mirror_action(a);
    assert(core_of(m@) == core_of(s));
    lemma_core_acts(s, m@, x);
    let d = m.acted(x);
    m.lemma_acted(x);
    assert(is_child(m, d)) by {
        reveal(is_child);
    }
    assert(core_of(d@) == core_of(mirror_state(c@)));
    assert(core_of(n@) == core_of(mirror_state(c@)));
    d
}

/// Every child of the mirror is the mirror of a child, history aside.
pub proof fn lemma_mirror_child_back(b: BitBoard, d: BitBoard) -> (c: BitBoard)
    requires
        b.proper(),
        b.move_count < u32::MAX,
        b.halfmove_clock < u16::MAX,
        is_child(mirrored(b), d),
    ensures
        is_child(b, c),
        twins(d, mirrored(c)),
        c.proper(),
        d.proper(),
{
    let m = mirror_board(b);
    lemma_mirrored(m, b);
    law_mirror_wf(m, b);
    assert(m.move_count as int == m@.move_count && m.halfmove_clock as int == m@.clock);
    let e = lemma_mirror_child(m, d);
    let back = mirrored(m);
    lemma_mirror_twice(b);
    law_mirror_wf(back, m);
    assert(back.move_count as int == back@.move_count && back.halfmove_clock as int == back@.clock);
    let c = lemma_twin_child(back, b, e);
    // d is the mirror of its mirror, whose twin is c.
    lemma_mirror_twice(d);
    let n = mirrored(d);
    lemma_twins(e, n);
    lemma_twins(c, e);
    assert(mirrored(c) == mirrored(n));
    c
}

/// Mirroring twice gives the board back, history aside.
pub proof fn lemma_mirror_twice(b: BitBoard)
    requires
        b.inv(),
    ensures
        is_mirror_of(mirrored(b), b),
        is_mirror_of(mirrored(mirrored(b)), mirrored(b)),
        twins(mirrored(mirrored(b)), b),
        twins(b, mirrored(mirrored(b))),
{
    let m = mirror_board(b);
    lemma_mirrored(m, b);
    let n = mirror_board(m);
    lemma_mirrored(n, m);
    law_mirror_involution(b@);
    assert(mirror_state(m@).cells =~= mirror_state(mirror_state(b@)).cells);
    assert(core_of(n@) == core_of(b@));
}

/// The scores behind two positions correspond with the sides exchanged.
spec fn correspond(b: BitBoard, p: Scores, m: BitBoard, q: Scores) -> bool {
    &&& forall|c: BitBoard| #[trigger] is_child(b, c) ==> answered(m, q, negated(p.of(c)))
    &&& forall|d: BitBoard| #[trigger] is_child(m, d) ==> answered(b, p, negated(q.of(d)))
}

/// Some child has this value.
spec fn answered(b: BitBoard, sc: Scores, v: u8) -> bool {
    exists|c: BitBoard| #[trigger] is_child(b, c) && sc.of(c) == v
}

proof fn lemma_negated(v: u8, p: Player)
    ensures
        wins(p, v) == wins(p.opponent(), negated(v)),
        loses(p, v) == loses(p.opponent(), negated(v)),
        win_dist(negated(v)) == win_dist(v),
        negated(negated(v)) == v,
{
}

/// Corresponding positions have the same outlook.
proof fn lemma_same_outlook(b: BitBoard, p: Scores, m: BitBoard, q: Scores)
    requires
        correspond(b, p, m, q),
        m.current_player == b.current_player.opponent(),
    ensures
        outlook_of(m, q) == outlook_of(b, p),
{
    lemma_outlook(b, p);
    lemma_outlook(m, q);
    let o = outlook_of(b, p);
    let pl = b.current_player;
    let po = m.current_player;
    assert(po.opponent() == pl);
    assert forall|d: BitBoard| #[trigger] is_child(m, d) implies exists|c: BitBoard| #[trigger]
        is_child(b, c) && p.of(c) == negated(q.of(d)) by {
        assert(answered(b, p, negated(q.of(d))));
    }
    match o {
        Outlook::Stuck => {
            assert(has_outlook(m, q, Outlook::Stuck));
        },
        Outlook::Win(k) => {
            let c = choose|c: BitBoard| #[trigger] is_child(b, c) && wins(pl, p.of(c)) && win_dist(p.of(c)) + 1 == k;
            assert(answered(m, q, negated(p.of(c))));
            let d = choose|d: BitBoard| #[trigger] is_child(m, d) && q.of(d) == negated(p.of(c));
            lemma_negated(p.of(c), pl);
            assert(is_child(m, d) && wins(po, q.of(d)) && win_dist(q.of(d)) + 1 == k);
            assert forall|d: BitBoard| #[trigger] is_child(m, d) && wins(po, q.of(d)) implies win_dist(q.of(d)) + 1 >= k by {
                let c = choose|c: BitBoard| #[trigger] is_child(b, c) && p.of(c) == negated(q.of(d));
                lemma_negated(q.of(d), po);
            }
            assert(has_outlook(m, q, o));
        },
        Outlook::Loss(k) => {
            let c = choose|c: BitBoard| #[trigger] is_child(b, c) && win_dist(p.of(c)) + 1 == k;
            assert(answered(m, q, negated(p.of(c))));
            let d = choose|d: BitBoard| #[trigger] is_child(m, d) && q.of(d) == negated(p.of(c));
            lemma_negated(p.of(c), pl);
            assert(is_child(m, d) && win_dist(q.of(d)) + 1 == k);
            assert forall|d: BitBoard| #[trigger] is_child(m, d) implies loses(po, q.of(d)) && win_dist(q.of(d)) + 1 <= k by {
                let c = choose|c: BitBoard| #[trigger] is_child(b, c) && p.of(c) == negated(q.of(d));
                lemma_negated(q.of(d), po);
            }
            assert(has_outlook(m, q, o));
        },
        Outlook::Neither => {
            let c = choose|c: BitBoard| #[trigger] is_child(b, c) && !loses(pl, p.of(c));
            assert(answered(m, q, negated(p.of(c))));
            let d = choose|d: BitBoard| #[trigger] is_child(m, d) && q.of(d) == negated(p.of(c));
            lemma_negated(p.of(c), pl);
            assert(is_child(m, d) && !loses(po, q.of(d)));
            assert forall|d: BitBoard| #[trigger] is_child(m, d) implies !wins(po, q.of(d)) by {
                let c = choose|c: BitBoard| #[trigger] is_child(b, c) && p.of(c) == negated(q.of(d));
                lemma_negated(q.of(d), po);
            }
            assert(has_outlook(m, q, o));
        },
    }
}

/// Not both sides have brought all barrels home.
pub open spec fn one_at_most_home(c: BitBoard) -> bool {
    c.white_scored < 4 || c.black_scored < 4
}

/// The tables below two mirrored phases answer mirrored positions with the
/// sides exchanged.
pub open spec fn lower_mirrored(p: Scores, q: Scores) -> bool {
    forall|c: BitBoard| #[trigger]
        c.proper() && (c.white_scored > 4 - p.wr || c.black_scored > 4 - p.br) && one_at_most_home(c)
            ==> q.lower.value_of(mirrored(c)) == (match p.lower.value_of(c) {
            Some(v) => Some(negated(v)),
            None => None,
        })
}

/// The values of one phase read off the values of the mirrored phase.
spec fn reflection(p: Scores, q: Scores) -> Scores {
    Scores {
        lower: p.lower,
        wr: p.wr,
        br: p.br,
        vals: Seq::new(
            states_of(p.wr, p.br),
            |i: int|
                if has_board(p.wr, p.br, i) {
                    negated(q.vals[index_of(p.wr, mirrored(board_at(p.wr, p.br, i)))])
                } else {
                    V_INVALID
                },
        ),
    }
}

/// The reflection scores a position as the mirrored phase scores its mirror.
proof fn lemma_reflected(p: Scores, q: Scores, c: BitBoard)
    requires
        1 <= p.wr <= 4,
        1 <= p.br <= 4,
        q.wr == p.br,
        q.br == p.wr,
        lower_mirrored(p, q),
        c.proper(),
        one_at_most_home(c),
        c.white_scored > 4 - p.wr || c.black_scored > 4 - p.br || in_phase(p.wr, p.br, c),
    ensures
        reflection(p, q).of(c) == negated(q.of(mirrored(c))),
        is_mirror_of(mirrored(c), c),
{
    reveal(Scores::of);
    let m = mirror_board(c);
    lemma_mirrored(m, c);
    law_mirror_wf(m, c);
    let f = reflection(p, q);
    if !(c.white_scored > 4 - p.wr || c.black_scored > 4 - p.br) {
        let i = index_of(p.br, c);
        crate::phase::lemma_index_digits(p.wr, p.br, c);
        assert(has_board(p.wr, p.br, i));
        lemma_board_ok(p.wr, p.br, i);
        let b = board_at(p.wr, p.br, i);
        crate::phase::law_index_injective(p.wr, p.br, b, c);
        assert(twins(b, c));
        lemma_twins(b, c);
        assert(f.vals[i] == negated(q.vals[index_of(p.wr, mirrored(b))]));
    } else {
        lemma_negated(V_DRAW, Player::White);
        if let Some(v) = p.lower.value_of(c) {
            lemma_negated(v, Player::White);
        }
    }
}

/// Children of a position of the phase are scored alike by the reflection and
/// by the mirrored phase.
proof fn lemma_reflection_corresponds(p: Scores, q: Scores, b: BitBoard)
    requires
        1 <= p.wr <= 4,
        1 <= p.br <= 4,
        q.wr == p.br,
        q.br == p.wr,
        lower_mirrored(p, q),
        b.proper(),
        in_phase(p.wr, p.br, b),
        b.move_count < u32::MAX,
        b.halfmove_clock < u16::MAX,
    ensures
        correspond(b, reflection(p, q), mirrored(b), q),
{
    let f = reflection(p, q);
    let m = mirrored(b);
    assert forall|c: BitBoard| #[trigger] is_child(b, c) implies answered(m, q, negated(f.of(c))) by {
        let d = lemma_mirror_child(b, c);
        lemma_in_or_below(p, b, c);
        lemma_reflected(p, q, c);
        lemma_same_score(q, d, mirrored(c));
        lemma_negated(q.of(mirrored(c)), Player::White);
        assert(is_child(m, d) && q.of(d) == negated(f.of(c)));
    }
    assert forall|d: BitBoard| #[trigger] is_child(m, d) implies answered(b, f, negated(q.of(d))) by {
        let c = lemma_mirror_child_back(b, d);
        lemma_in_or_below(p, b, c);
        lemma_reflected(p, q, c);
        lemma_same_score(q, d, mirrored(c));
        assert(is_child(b, c) && f.of(c) == negated(q.of(d)));
    }
}

pub(crate) proof fn lemma_in_or_below(p: Scores, b: BitBoard, c: BitBoard)
    requires
        b.proper(),
        in_phase(p.wr, p.br, b),
        b.move_count < u32::MAX,
        b.halfmove_clock < u16::MAX,
        is_child(b, c),
    ensures
        c.proper(),
        c.white_scored > 4 - p.wr || c.black_scored > 4 - p.br || in_phase(p.wr, p.br, c),
        p.wr >= 1 && p.br >= 1 ==> one_at_most_home(c),
{
    let a = lemma_child_action(b, c);
    crate::rules::law_scores_monotone(b@, a);
    assert(c.white_scored as int == c@.white_scored && c.black_scored as int == c@.black_scored);
}

/// The reflection of a solved phase is solved.
proof fn lemma_reflection_solved(p: Scores, q: Scores)
    requires
        1 <= p.wr <= 4,
        1 <= p.br <= 4,
        q.wr == p.br,
        q.br == p.wr,
        lower_mirrored(p, q),
        q.vals.len() == states_of(q.wr, q.br),
        solved(q),
    ensures
        solved(reflection(p, q)),
{
    let f = reflection(p, q);
    assert forall|i: int| 0 <= i < f.vals.len() implies if has_board(f.wr, f.br, i) {
        settled(f, i)
    } else {
        #[trigger] f.vals[i] == V_INVALID
    } by {
        if has_board(p.wr, p.br, i) {
            lemma_board_ok(p.wr, p.br, i);
            let b = board_at(p.wr, p.br, i);
            let m = mirror_board(b);
            lemma_mirrored(m, b);
            law_mirror_wf(m, b);
            let j = index_of(q.br, m);
            crate::phase::lemma_index_digits(q.wr, q.br, m);
            assert(m.move_count as int == m@.move_count && m.halfmove_clock as int == m@.clock);
            lemma_board_at(q.wr, q.br, j, m);
            assert(settled(q, j)) by {
                assert(q.vals[j] == q.vals[j]);
            }
            lemma_reflection_corresponds(p, q, b);
            lemma_same_outlook(b, f, m, q);
            lemma_outlook_range(b, f);
            let o = outlook_of(b, f);
            assert(q.vals[j] == final_value(o, m.current_player));
            assert(f.vals[i] == negated(q.vals[j]));
            assert(negated(final_value(o, m.current_player)) == final_value(o, b.current_player));
        }
    }
}

/// Solving a phase directly gives what solving the mirrored phase gives: every
/// position is worth what its mirror is worth, with the sides exchanged.
pub proof fn law_mirrored_solution(p: Scores, q: Scores, b: BitBoard)
    requires
        1 <= p.wr <= 4,
        1 <= p.br <= 4,
        q.wr == p.br,
        q.br == p.wr,
        lower_mirrored(p, q),
        p.vals.len() == states_of(p.wr, p.br),
        q.vals.len() == states_of(q.wr, q.br),
        solved(p),
        solved(q),
        b.proper(),
        in_phase(p.wr, p.br, b),
    ensures
        p.vals[index_of(p.br, b)] == negated(q.vals[index_of(q.br, mirrored(b))]),
{
    let f = reflection(p, q);
    lemma_reflection_solved(p, q);
    law_solution_unique(p, f);
    lemma_reflected(p, q, b);
    reveal(Scores::of);
    let m = mirror_board(b);
    lemma_mirrored(m, b);
    law_mirror_wf(m, b);
}

/// Below the phase of the last two barrels there are finished games only, which
/// mirror each other.
pub proof fn law_last_barrels_mirrored(p: Scores, q: Scores)
    requires
        p.wr == 1,
        p.br == 1,
    ensures
        lower_mirrored(p, q),
{
    assert forall|c: BitBoard| #[trigger]
        c.proper() && (c.white_scored > 4 - p.wr || c.black_scored > 4 - p.br) && one_at_most_home(
            c,
        ) implies q.lower.value_of(mirrored(c)) == (match p.lower.value_of(c) {
        Some(v) => Some(negated(v)),
        None => None,
    }) by {
        let m = mirror_board(c);
        lemma_mirrored(m, c);
        law_mirror_wf(m, c);
        crate::phase::lemma_barrels_popcount(c, Player::White);
        crate::phase::lemma_barrels_popcount(c, Player::Black);
    }
}

} // verus!
