//! Retrograde solution of one phase, in order of distance.
//!
//! Pass `p` decides the positions won in `p` (a move leads to a position won in
//! `p - 1`) and those lost in `p` (every move loses, the longest in `p - 1`).
//! What is never decided is a draw.
use vstd::prelude::*;
use crate::bitboard::BitBoard;
use crate::bitmove::BitMove;
use crate::board::Player;
use crate::convert::law_bitboard_is_its_view;
use crate::movegen::{has_action, lists_legal};
use crate::phase::{
    core_of, in_phase, index_of, is_black_win, is_white_win, law_index_injective, plain, states_of, v_black_win, v_white_win,
    win_dist, Phase, MAX_DIST, V_DRAW, V_INVALID, V_UNKNOWN,
};
use crate::rules::{hash_of, initial_state, Action, GameState};
use crate::tablebase::Tablebase;

verus! {

/// What is known of the positions a phase can lead to: the lower phases and the
/// values of the phase itself.
pub struct Scores {
    pub lower: Tablebase,
    pub wr: nat,
    pub br: nat,
    pub vals: Seq<u8>,
}

impl Scores {
    /// The value of a position reached by one move; a lower phase that is not
    /// loaded counts as a draw.
    #[verifier::opaque]
    pub open spec fn of(self, c: BitBoard) -> u8 {
        if c.white_scored > 4 - self.wr || c.black_scored > 4 - self.br {
            match self.lower.value_of(c) {
                Some(v) => v,
                None => V_DRAW,
            }
        } else {
            self.vals[index_of(self.br, c)]
        }
    }
}

/// One legal action leads from `bb` to `c`.
#[verifier::opaque]
pub open spec fn is_child(bb: BitBoard, c: BitBoard) -> bool {
    exists|a: Action| #[trigger] bb@.legal(a) && c == bb.acted(a)
}

/// A legal move leads to a child.
pub proof fn lemma_move_child(bb: BitBoard, mv: BitMove)
    requires
        mv.valid(),
        mv.single(),
        bb@.legal(mv@),
    ensures
        is_child(bb, bb.played(mv)),
{
    reveal(is_child);
    bb.lemma_played_is_acted(mv);
}

/// A child is a game position of one legal action.
pub proof fn lemma_child_action(bb: BitBoard, c: BitBoard) -> (a: Action)
    requires
        bb.proper(),
        bb.move_count < u32::MAX,
        bb.halfmove_clock < u16::MAX,
        is_child(bb, c),
    ensures
        bb@.legal(a),
        c == bb.acted(a),
        c.proper(),
        c@ == bb@.apply(a),
{
    reveal(is_child);
    let a = choose|a: Action| #[trigger] bb@.legal(a) && c == bb.acted(a);
    bb.lemma_acted(a);
    a
}

pub open spec fn wins(p: Player, v: u8) -> bool {
    match p {
        Player::White => is_white_win(v),
        Player::Black => is_black_win(v),
    }
}

pub open spec fn loses(p: Player, v: u8) -> bool {
    wins(p.opponent(), v)
}

/// What the side to move can expect, looking one move ahead.
pub enum Outlook {
    /// No legal action.
    Stuck,
    /// The closest win is this many moves away.
    Win(int),
    /// Every action loses, the longest resistance lasting this many moves.
    Loss(int),
    /// No action wins and some action does not lose.
    Neither,
}

pub open spec fn has_outlook(bb: BitBoard, sc: Scores, o: Outlook) -> bool {
    let p = bb.current_player;
    match o {
        Outlook::Stuck => forall|c: BitBoard| !#[trigger] is_child(bb, c),
        Outlook::Win(d) => {
            &&& exists|c: BitBoard| #[trigger] is_child(bb, c) && wins(p, sc.of(c)) && win_dist(sc.of(c)) + 1 == d
            &&& forall|c: BitBoard| #[trigger] is_child(bb, c) && wins(p, sc.of(c)) ==> win_dist(sc.of(c)) + 1 >= d
        },
        Outlook::Loss(d) => {
            &&& exists|c: BitBoard| #[trigger] is_child(bb, c) && win_dist(sc.of(c)) + 1 == d
            &&& forall|c: BitBoard| #[trigger] is_child(bb, c) ==> loses(p, sc.of(c)) && win_dist(sc.of(c)) + 1 <= d
        },
        Outlook::Neither => {
            &&& exists|c: BitBoard| #[trigger] is_child(bb, c) && !loses(p, sc.of(c))
            &&& forall|c: BitBoard| #[trigger] is_child(bb, c) ==> !wins(p, sc.of(c))
        },
    }
}

/// The outlook of a position.
pub open spec fn outlook_of(bb: BitBoard, sc: Scores) -> Outlook {
    choose|o: Outlook| has_outlook(bb, sc, o)
}

proof fn lemma_outlook_unique(bb: BitBoard, sc: Scores, a: Outlook, b: Outlook)
    requires
        has_outlook(bb, sc, a),
        has_outlook(bb, sc, b),
    ensures
        a == b,
{
    let p = bb.current_player;
    match a {
        Outlook::Stuck => {},
        Outlook::Win(d) => {
            let c = choose|c: BitBoard| #[trigger] is_child(bb, c) && wins(p, sc.of(c)) && win_dist(sc.of(c)) + 1 == d;
            if let Outlook::Win(e) = b {
                let f = choose|c: BitBoard|
                    #[trigger] is_child(bb, c) && wins(p, sc.of(c)) && win_dist(sc.of(c)) + 1 == e;
                assert(is_child(bb, f));
            }
            assert(is_child(bb, c));
        },
        Outlook::Loss(d) => {
            let c = choose|c: BitBoard| #[trigger] is_child(bb, c) && win_dist(sc.of(c)) + 1 == d;
            assert(is_child(bb, c));
            if let Outlook::Loss(e) = b {
                let f = choose|c: BitBoard| #[trigger] is_child(bb, c) && win_dist(sc.of(c)) + 1 == e;
                assert(is_child(bb, f));
            }
            if let Outlook::Win(e) = b {
                let f = choose|c: BitBoard|
                    #[trigger] is_child(bb, c) && wins(p, sc.of(c)) && win_dist(sc.of(c)) + 1 == e;
                assert(is_child(bb, f));
            }
            if b is Neither {
                let f = choose|c: BitBoard| #[trigger] is_child(bb, c) && !loses(p, sc.of(c));
                assert(is_child(bb, f));
            }
        },
        Outlook::Neither => {
            let c = choose|c: BitBoard| #[trigger] is_child(bb, c) && !loses(p, sc.of(c));
            assert(is_child(bb, c));
            if let Outlook::Win(e) = b {
                let f = choose|c: BitBoard|
                    #[trigger] is_child(bb, c) && wins(p, sc.of(c)) && win_dist(sc.of(c)) + 1 == e;
                assert(is_child(bb, f));
            }
        },
    }
}

spec fn wins_at(bb: BitBoard, sc: Scores, d: int) -> bool {
    exists|c: BitBoard|
        #[trigger] is_child(bb, c) && wins(bb.current_player, sc.of(c)) && win_dist(sc.of(c)) + 1 == d
}

spec fn ends_at(bb: BitBoard, sc: Scores, d: int) -> bool {
    exists|c: BitBoard| #[trigger] is_child(bb, c) && win_dist(sc.of(c)) + 1 == d
}

proof fn lemma_least_win(bb: BitBoard, sc: Scores, d: int) -> (m: int)
    requires
        wins_at(bb, sc, d),
        d >= 1,
    ensures
        1 <= m <= d,
        wins_at(bb, sc, m),
        forall|k: int| 1 <= k < m ==> !wins_at(bb, sc, k),
    decreases d,
{
    if exists|k: int| 1 <= k < d && wins_at(bb, sc, k) {
        let k = choose|k: int| 1 <= k < d && wins_at(bb, sc, k);
        lemma_least_win(bb, sc, k)
    } else {
        d
    }
}

proof fn lemma_greatest_end(bb: BitBoard, sc: Scores, d: int) -> (m: int)
    requires
        ends_at(bb, sc, d),
        d <= 256,
    ensures
        d <= m <= 256,
        ends_at(bb, sc, m),
        forall|k: int| m < k <= 256 ==> !ends_at(bb, sc, k),
    decreases 256 - d,
{
    if exists|k: int| d < k <= 256 && ends_at(bb, sc, k) {
        let k = choose|k: int| d < k <= 256 && ends_at(bb, sc, k);
        lemma_greatest_end(bb, sc, k)
    } else {
        d
    }
}

/// Every position has exactly one outlook.
pub proof fn lemma_outlook(bb: BitBoard, sc: Scores)
    ensures
        has_outlook(bb, sc, outlook_of(bb, sc)),
        forall|o: Outlook| has_outlook(bb, sc, o) ==> o == outlook_of(bb, sc),
{
    let p = bb.current_player;
    let o: Outlook = if forall|c: BitBoard| !#[trigger] is_child(bb, c) {
        Outlook::Stuck
    } else if exists|c: BitBoard| #[trigger] is_child(bb, c) && wins(p, sc.of(c)) {
        let c = choose|c: BitBoard| #[trigger] is_child(bb, c) && wins(p, sc.of(c));
        let d = win_dist(sc.of(c)) + 1;
        assert(wins_at(bb, sc, d));
        let m = lemma_least_win(bb, sc, d);
        assert forall|c: BitBoard| #[trigger] is_child(bb, c) && wins(p, sc.of(c)) implies win_dist(sc.of(c)) + 1 >= m by {
            assert(wins_at(bb, sc, win_dist(sc.of(c)) + 1));
        }
        Outlook::Win(m)
    } else if forall|c: BitBoard| #[trigger] is_child(bb, c) ==> loses(p, sc.of(c)) {
        let c = choose|c: BitBoard| #[trigger] is_child(bb, c);
        let d = win_dist(sc.of(c)) + 1;
        assert(ends_at(bb, sc, d));
        let m = lemma_greatest_end(bb, sc, d);
        assert forall|c: BitBoard| #[trigger] is_child(bb, c) implies loses(p, sc.of(c)) && win_dist(sc.of(c)) + 1 <= m by {
            assert(ends_at(bb, sc, win_dist(sc.of(c)) + 1));
        }
        Outlook::Loss(m)
    } else {
        Outlook::Neither
    };
    assert(has_outlook(bb, sc, o));
    assert forall|q: Outlook| has_outlook(bb, sc, q) implies q == outlook_of(bb, sc) by {
        lemma_outlook_unique(bb, sc, q, outlook_of(bb, sc));
    }
}

pub open spec fn win_value(p: Player, d: int) -> u8 {
    match p {
        Player::White => v_white_win(d as u8),
        Player::Black => v_black_win(d as u8),
    }
}

/// What examining one undecided position in a pass says.
#[derive(Clone, Copy, PartialEq, Eq, Debug)]
pub enum Verdict {
    /// Decided now.
    Value(u8),
    /// Due in this later pass if nothing changes.
    Pending(u8),
    /// No decision in sight.
    Open,
}

pub open spec fn verdict_of(o: Outlook, p: Player, pass: int) -> Verdict {
    match o {
        Outlook::Stuck => Verdict::Value(V_DRAW),
        Outlook::Win(d) => if d <= pass {
            Verdict::Value(win_value(p, d))
        } else {
            Verdict::Pending(d as u8)
        },
        Outlook::Loss(d) => if d <= pass {
            Verdict::Value(win_value(p.opponent(), d))
        } else {
            Verdict::Pending(d as u8)
        },
        Outlook::Neither => Verdict::Open,
    }
}

/// The value of a position with an outlook when solving has finished.
pub open spec fn final_value(o: Outlook, p: Player) -> u8 {
    match o {
        Outlook::Stuck => V_DRAW,
        Outlook::Win(d) => if d <= MAX_DIST {
            win_value(p, d)
        } else {
            V_DRAW
        },
        Outlook::Loss(d) => if d <= MAX_DIST {
            win_value(p.opponent(), d)
        } else {
            V_DRAW
        },
        Outlook::Neither => V_DRAW,
    }
}

/// Moves for the same action lead to the same board.
pub proof fn lemma_played_same(bb: BitBoard, a: BitMove, b: BitMove)
    requires
        a.valid(),
        b.valid(),
        a.single(),
        b.single(),
        a@ == b@,
    ensures
        bb.played(a) == bb.played(b),
{
    reveal(BitBoard::played);
    if !a.pail_only() && !a.places_barrel() {
        assert(a.landings() == b.landings());
        assert(a.landings().last() == b.landings().last());
    }
}

/// The listed moves lead to all children.
pub proof fn lemma_children_listed(bb: BitBoard, moves: Seq<BitMove>, c: BitBoard)
    requires
        lists_legal(moves, bb@),
    ensures
        is_child(bb, c) == exists|i: int| 0 <= i < moves.len() && c == bb.played(#[trigger] moves[i]),
{
    reveal(is_child);
    let kind = |a: Action| bb@.legal(a);
    if is_child(bb, c) {
        let a = choose|a: Action| #[trigger] bb@.legal(a) && c == bb.acted(a);
        assert(kind(a));
        assert(has_action(moves, 0, a));
        let i = choose|i: int| 0 <= i < moves.len() && (#[trigger] moves[i])@ == a;
        lemma_listed_legal(moves, bb@, i);
        bb.lemma_played_is_acted(moves[i]);
        assert(c == bb.played(moves[i]));
    }
    if exists|i: int| 0 <= i < moves.len() && c == bb.played(#[trigger] moves[i]) {
        let i = choose|i: int| 0 <= i < moves.len() && c == bb.played(#[trigger] moves[i]);
        assert(moves[i].valid() && kind(moves[i]@));
        lemma_listed_legal(moves, bb@, i);
        lemma_move_child(bb, moves[i]);
    }
}

/// A listed move is legal.
pub proof fn lemma_listed_legal(moves: Seq<BitMove>, st: GameState, j: int)
    requires
        lists_legal(moves, st),
        0 <= j < moves.len(),
    ensures
        moves[j].valid(),
        moves[j].single(),
        st.legal(moves[j]@),
{
    let kind = |a: Action| st.legal(a);
    assert(kind(moves[j]@));
}

/// Playing a listed move from a game position is possible and stays within the
/// game.
pub proof fn lemma_listed_playable(bb: BitBoard, mv: BitMove)
    requires
        bb.wf(),
        mv.valid(),
        mv.single(),
        bb@.legal(mv@),
        bb.move_count < u32::MAX,
        bb.halfmove_clock < u16::MAX,
    ensures
        bb.playable(mv),
{
    crate::phase::lemma_barrels_popcount(bb, Player::White);
    crate::phase::lemma_barrels_popcount(bb, Player::Black);
}

/// The value of the position that a legal move leads to.
fn child_score(lower: &Tablebase, phase: &Phase, bb: &BitBoard, mv: &BitMove) -> (v: u8)
    requires
        lower.wf(),
        phase.wf(),
        bb.proper(),
        in_phase(phase.wr as nat, phase.br as nat, *bb),
        bb.move_count < u32::MAX,
        bb.halfmove_clock < u16::MAX,
        mv.valid(),
        mv.single(),
        bb@.legal(mv@),
    ensures
        v == (Scores { lower: *lower, wr: phase.wr as nat, br: phase.br as nat, vals: phase.values@ }).of(bb.played(*mv)),
{
    reveal(Scores::of);
    let mut child = *bb;
    proof {
        lemma_listed_playable(*bb, *mv);
    }
    child.make_move(mv);
    proof {
        crate::phase::lemma_barrels_popcount(child, Player::White);
        crate::phase::lemma_barrels_popcount(child, Player::Black);
        crate::rules::law_scores_monotone(bb@, mv@);
        assert(child@.white_scored >= bb@.white_scored && child@.black_scored >= bb@.black_scored);
        assert(child.white_scored as int == child@.white_scored && child.black_scored as int == child@.black_scored);
    }
    if child.white_scored as usize > 4 - phase.wr || child.black_scored as usize > 4 - phase.br {
        match lower.value(&child) {
            Some(v) => v,
            None => V_DRAW,
        }
    } else {
        phase.values[phase.index(&child).unwrap()]
    }
}

/// The distances among the first `n` listed moves that win for `p`.
spec fn closest_win(p: Player, vs: Seq<u8>, best: Option<u8>) -> bool {
    &&& best matches Some(d) ==> d <= 120 && exists|i: int|
        0 <= i < vs.len() && wins(p, #[trigger] vs[i]) && win_dist(vs[i]) == d
    &&& forall|i: int|
        0 <= i < vs.len() && wins(p, #[trigger] vs[i]) ==> best is Some && best->0 <= win_dist(vs[i])
}

spec fn longest_loss(p: Player, vs: Seq<u8>, all_lose: bool, max: u8) -> bool {
    &&& max <= 120
    &&& all_lose == forall|i: int| 0 <= i < vs.len() ==> loses(p, #[trigger] vs[i])
    &&& forall|i: int| 0 <= i < vs.len() && loses(p, #[trigger] vs[i]) ==> win_dist(vs[i]) <= max
    &&& all_lose && vs.len() > 0 ==> exists|i: int| 0 <= i < vs.len() && win_dist(#[trigger] vs[i]) == max
    &&& vs.len() == 0 ==> max == 0
}

proof fn lemma_closest_win_push(p: Player, vs: Seq<u8>, best: Option<u8>, v: u8)
    requires
        closest_win(p, vs, best),
    ensures
        closest_win(
            p,
            vs.push(v),
            if wins(p, v) {
                match best {
                    Some(b) => Some(if b < win_dist(v) { b } else { win_dist(v) }),
                    None => Some(win_dist(v)),
                }
            } else {
                best
            },
        ),
{
    let ws = vs.push(v);
    assert(ws[vs.len() as int] == v);
    assert forall|i: int| 0 <= i < vs.len() implies ws[i] == vs[i] by {}
    if let Some(d) = best {
        let i = choose|i: int| 0 <= i < vs.len() && wins(p, #[trigger] vs[i]) && win_dist(vs[i]) == d;
        assert(wins(p, ws[i]) && win_dist(ws[i]) == d);
    }
}

proof fn lemma_longest_loss_push(p: Player, vs: Seq<u8>, all_lose: bool, max: u8, v: u8)
    requires
        longest_loss(p, vs, all_lose, max),
    ensures
        longest_loss(
            p,
            vs.push(v),
            all_lose && loses(p, v),
            if loses(p, v) && win_dist(v) > max { win_dist(v) } else { max },
        ),
{
    let ws = vs.push(v);
    let n = vs.len() as int;
    let max2 = if loses(p, v) && win_dist(v) > max { win_dist(v) } else { max };
    assert(ws[n] == v);
    assert forall|i: int| 0 <= i < n implies ws[i] == vs[i] by {}
    if all_lose && loses(p, v) {
        assert forall|i: int| 0 <= i < ws.len() implies loses(p, #[trigger] ws[i]) by {
            if i < n {
                assert(loses(p, vs[i]));
            }
        }
        if win_dist(v) < max {
            let i = choose|i: int| 0 <= i < vs.len() && win_dist(#[trigger] vs[i]) == max;
            assert(win_dist(ws[i]) == max2);
        } else {
            assert(win_dist(ws[n]) == max2);
        }
    } else if !all_lose {
        let i = choose|i: int| 0 <= i < vs.len() && !loses(p, #[trigger] vs[i]);
        assert(!loses(p, ws[i]));
    } else {
        assert(!loses(p, ws[n]));
    }
}

/// The children, listed once or more, and nothing else.
pub open spec fn lists_children(bb: BitBoard, cs: Seq<BitBoard>) -> bool {
    &&& forall|i: int| 0 <= i < cs.len() ==> is_child(bb, #[trigger] cs[i])
    &&& forall|c: BitBoard| #[trigger] is_child(bb, c) ==> exists|i: int| 0 <= i < cs.len() && #[trigger] cs[i] == c
}

/// The values of the children give the outlook.
proof fn lemma_outlook_from_values(
    bb: BitBoard,
    sc: Scores,
    cs: Seq<BitBoard>,
    vs: Seq<u8>,
    best: Option<u8>,
    all_lose: bool,
    max: u8,
)
    requires
        lists_children(bb, cs),
        vs.len() == cs.len(),
        forall|i: int| 0 <= i < vs.len() ==> #[trigger] vs[i] == sc.of(cs[i]),
        closest_win(bb.current_player, vs, best),
        longest_loss(bb.current_player, vs, all_lose, max),
    ensures
        has_outlook(
            bb,
            sc,
            if cs.len() == 0 {
                Outlook::Stuck
            } else if best is Some {
                Outlook::Win(best->0 + 1)
            } else if all_lose {
                Outlook::Loss(max + 1)
            } else {
                Outlook::Neither
            },
        ),
{
    let p = bb.current_player;
    if cs.len() == 0 {
        assert(has_outlook(bb, sc, Outlook::Stuck));
    } else if let Some(d) = best {
        let i = choose|i: int| 0 <= i < vs.len() && wins(p, #[trigger] vs[i]) && win_dist(vs[i]) == d;
        let c = cs[i];
        assert(is_child(bb, c) && wins(p, sc.of(c)) && win_dist(sc.of(c)) + 1 == d + 1);
        assert forall|c: BitBoard| #[trigger] is_child(bb, c) && wins(p, sc.of(c)) implies win_dist(sc.of(c)) + 1 >= d
            + 1 by {
            let k = choose|k: int| 0 <= k < cs.len() && #[trigger] cs[k] == c;
            assert(vs[k] == sc.of(c));
        }
        assert(has_outlook(bb, sc, Outlook::Win(d + 1)));
    } else if all_lose {
        let i = choose|i: int| 0 <= i < vs.len() && win_dist(#[trigger] vs[i]) == max;
        let c = cs[i];
        assert(is_child(bb, c) && win_dist(sc.of(c)) + 1 == max + 1);
        assert forall|c: BitBoard| #[trigger] is_child(bb, c) implies loses(p, sc.of(c)) && win_dist(sc.of(c)) + 1 <= max
            + 1 by {
            let k = choose|k: int| 0 <= k < cs.len() && #[trigger] cs[k] == c;
            assert(vs[k] == sc.of(c));
        }
        assert(has_outlook(bb, sc, Outlook::Loss(max + 1)));
    } else {
        let i = choose|i: int| 0 <= i < vs.len() && !loses(p, #[trigger] vs[i]);
        let c = cs[i];
        assert(is_child(bb, c) && !loses(p, sc.of(c)));
        assert forall|c: BitBoard| #[trigger] is_child(bb, c) implies !wins(p, sc.of(c)) by {
            let k = choose|k: int| 0 <= k < cs.len() && #[trigger] cs[k] == c;
            assert(vs[k] == sc.of(c));
        }
        assert(has_outlook(bb, sc, Outlook::Neither));
    }
}

/// The boards behind the moves of a list.
pub open spec fn boards_of(bb: BitBoard, moves: Seq<BitMove>) -> Seq<BitBoard> {
    Seq::new(moves.len(), |i: int| bb.played(moves[i]))
}

pub proof fn lemma_lists_children(bb: BitBoard, moves: Seq<BitMove>)
    requires
        lists_legal(moves, bb@),
    ensures
        lists_children(bb, boards_of(bb, moves)),
{
    let cs = boards_of(bb, moves);
    assert forall|i: int| 0 <= i < cs.len() implies is_child(bb, #[trigger] cs[i]) by {
        lemma_children_listed(bb, moves, cs[i]);
        assert(cs[i] == bb.played(moves[i]));
    }
    assert forall|c: BitBoard| #[trigger] is_child(bb, c) implies exists|i: int| 0 <= i < cs.len() && #[trigger] cs[i] == c by {
        lemma_children_listed(bb, moves, c);
        let i = choose|i: int| 0 <= i < moves.len() && c == bb.played(#[trigger] moves[i]);
        assert(cs[i] == c);
    }
}

/// Examines one position of the phase in a pass.
pub fn determine(lower: &Tablebase, phase: &Phase, bb: &BitBoard, pass: u8) -> (r: Verdict)
    requires
        lower.wf(),
        phase.wf(),
        bb.proper(),
        in_phase(phase.wr as nat, phase.br as nat, *bb),
        bb.move_count < u32::MAX,
        bb.halfmove_clock < u16::MAX,
    ensures
        r == verdict_of(
            outlook_of(
                *bb,
                Scores { lower: *lower, wr: phase.wr as nat, br: phase.br as nat, vals: phase.values@ },
            ),
            bb.current_player,
            pass as int,
        ),
{
    let ghost sc = Scores { lower: *lower, wr: phase.wr as nat, br: phase.br as nat, vals: phase.values@ };
    let ghost p = bb.current_player;
    let ghost mut vs: Seq<u8> = Seq::empty();
    let stm_white: bool = bb.current_player == Player::White;
    let moves = bb.generate_moves();
    let mut best_win_child: Option<u8> = None;
    let mut all_lose: bool = true;
    let mut max_lose_dist: u8 = 0;
    let mut j: usize = 0;
    while j < moves.len()
        invariant
            j <= moves@.len(),
            lower.wf(),
            phase.wf(),
            bb.proper(),
            in_phase(phase.wr as nat, phase.br as nat, *bb),
            bb.move_count < u32::MAX,
            bb.halfmove_clock < u16::MAX,
            lists_legal(moves@, bb@),
            sc == (Scores { lower: *lower, wr: phase.wr as nat, br: phase.br as nat, vals: phase.values@ }),
            p == bb.current_player,
            stm_white == (p == Player::White),
            vs.len() == j,
            forall|i: int| 0 <= i < vs.len() ==> #[trigger] vs[i] == sc.of(boards_of(*bb, moves@)[i]),
            closest_win(p, vs, best_win_child),
            longest_loss(p, vs, all_lose, max_lose_dist),
        decreases moves@.len() - j,
    {
        proof {
            lemma_listed_legal(moves@, bb@, j as int);
        }
        let v: u8 = child_score(lower, phase, bb, &moves[j]);
        proof {
            lemma_closest_win_push(p, vs, best_win_child, v);
            lemma_longest_loss_push(p, vs, all_lose, max_lose_dist, v);
            vs = vs.push(v);
        }
        let stm_wins: bool = if stm_white { is_white_win(v) } else { is_black_win(v) };
        let stm_loses: bool = if stm_white { is_black_win(v) } else { is_white_win(v) };
        if stm_wins {
            let d: u8 = win_dist(v);
            best_win_child = match best_win_child {
                Some(b) => Some(if b < d { b } else { d }),
                None => Some(d),
            };
        }
        if stm_loses {
            let d: u8 = win_dist(v);
            if d > max_lose_dist {
                max_lose_dist = d;
            }
        } else {
            all_lose = false;
        }
        j = j + 1;
    }
    proof {
        lemma_outlook(*bb, sc);
        lemma_lists_children(*bb, moves@);
        lemma_outlook_from_values(*bb, sc, boards_of(*bb, moves@), vs, best_win_child, all_lose, max_lose_dist);
    }
    if moves.len() == 0 {
        return Verdict::Value(V_DRAW);
    }
    if let Some(d) = best_win_child {
        let due: u8 = d + 1;
        return if due <= pass {
            Verdict::Value(if stm_white { v_white_win(due) } else { v_black_win(due) })
        } else {
            Verdict::Pending(due)
        };
    }
    if all_lose {
        let due: u8 = max_lose_dist + 1;
        return if due <= pass {
            Verdict::Value(if stm_white { v_black_win(due) } else { v_white_win(due) })
        } else {
            Verdict::Pending(due)
        };
    }
    Verdict::Open
}

/// Some game position of the phase has this index.
pub open spec fn has_board(wr: nat, br: nat, idx: int) -> bool {
    exists|b: BitBoard| b.proper() && in_phase(wr, br, b) && #[trigger] index_of(br, b) == idx
}

/// `b` is the position with this index, without history.
pub open spec fn is_board_at(wr: nat, br: nat, idx: int, b: BitBoard) -> bool {
    &&& b.proper()
    &&& in_phase(wr, br, b)
    &&& index_of(br, b) == idx
    &&& b.move_count == 0
    &&& b.halfmove_clock == 0
    &&& b.hash == hash_of(initial_state())
}

/// The position with an index, without history.
pub open spec fn board_at(wr: nat, br: nat, idx: int) -> BitBoard {
    choose|b: BitBoard| is_board_at(wr, br, idx, b)
}

pub(crate) proof fn lemma_board_at(wr: nat, br: nat, idx: int, b: BitBoard)
    requires
        is_board_at(wr, br, idx, b),
    ensures
        board_at(wr, br, idx) == b,
        has_board(wr, br, idx),
{
    let a = board_at(wr, br, idx);
    law_index_injective(wr, br, a, b);
    assert(a@ == core_of(a@) && b@ == core_of(b@));
    law_bitboard_is_its_view(a, b);
}

/// The position that examining an index in a pass is about.
pub open spec fn verdict_at(sc: Scores, idx: int, pass: int) -> Verdict {
    let b = board_at(sc.wr, sc.br, idx);
    verdict_of(outlook_of(b, sc), b.current_player, pass)
}

/// The decisions of a pass for the indices from `lo` to `hi`, in order.
pub open spec fn assignments(sc: Scores, pass: int, lo: int, hi: int) -> Seq<(usize, u8)>
    decreases hi - lo,
{
    if hi <= lo {
        Seq::empty()
    } else {
        let before = assignments(sc, pass, lo, hi - 1);
        if sc.vals[hi - 1] != V_UNKNOWN {
            before
        } else {
            match verdict_at(sc, hi - 1, pass) {
                Verdict::Value(v) => before.push(((hi - 1) as usize, v)),
                _ => before,
            }
        }
    }
}

/// The smallest pass in which an index from `lo` to `hi` is due.
pub open spec fn least_pending(sc: Scores, pass: int, lo: int, hi: int) -> Option<u8>
    decreases hi - lo,
{
    if hi <= lo {
        None
    } else {
        let before = least_pending(sc, pass, lo, hi - 1);
        if sc.vals[hi - 1] != V_UNKNOWN {
            before
        } else {
            match verdict_at(sc, hi - 1, pass) {
                Verdict::Pending(d) => match before {
                    Some(m) => Some(if m < d { m } else { d }),
                    None => Some(d),
                },
                _ => before,
            }
        }
    }
}

/// How many indices from `lo` to `hi` the pass leaves undecided.
pub open spec fn left_open(sc: Scores, pass: int, lo: int, hi: int) -> nat
    decreases hi - lo,
{
    if hi <= lo {
        0
    } else {
        left_open(sc, pass, lo, hi - 1) + if sc.vals[hi - 1] == V_UNKNOWN && !(verdict_at(sc, hi - 1, pass) is Value) {
            1nat
        } else {
            0nat
        }
    }
}

/// What one pass finds out about a range of indices.
pub struct PassResult {
    /// The decisions, in ascending order of index.
    pub assigned: Vec<(usize, u8)>,
    /// The smallest later pass in which a position is due.
    pub min_pending: Option<u8>,
    /// The number of positions left undecided.
    pub open: usize,
}

/// Examines the undecided positions of a range of indices. The values are only
/// read, so ranges can be examined side by side.
pub fn scan(lower: &Tablebase, phase: &Phase, pass: u8, lo: usize, hi: usize) -> (r: PassResult)
    requires
        lower.wf(),
        phase.wf(),
        lo <= hi <= phase.values@.len(),
        forall|i: int|
            lo <= i < hi && #[trigger] phase.values@[i] == V_UNKNOWN ==> has_board(phase.wr as nat, phase.br as nat, i),
    ensures
        ({
            let sc = Scores { lower: *lower, wr: phase.wr as nat, br: phase.br as nat, vals: phase.values@ };
            &&& r.assigned@ == assignments(sc, pass as int, lo as int, hi as int)
            &&& r.min_pending == least_pending(sc, pass as int, lo as int, hi as int)
            &&& r.open == left_open(sc, pass as int, lo as int, hi as int)
        }),
{
    let ghost sc = Scores { lower: *lower, wr: phase.wr as nat, br: phase.br as nat, vals: phase.values@ };
    let mut assigned: Vec<(usize, u8)> = Vec::new();
    let mut min_pending: Option<u8> = None;
    let mut open: usize = 0;
    let mut idx: usize = lo;
    while idx < hi
        invariant
            lower.wf(),
            phase.wf(),
            lo <= idx <= hi <= phase.values@.len(),
            forall|i: int|
                lo <= i < hi && #[trigger] phase.values@[i] == V_UNKNOWN ==> has_board(
                    phase.wr as nat,
                    phase.br as nat,
                    i,
                ),
            sc == (Scores { lower: *lower, wr: phase.wr as nat, br: phase.br as nat, vals: phase.values@ }),
            assigned@ == assignments(sc, pass as int, lo as int, idx as int),
            min_pending == least_pending(sc, pass as int, lo as int, idx as int),
            open == left_open(sc, pass as int, lo as int, idx as int),
            open <= idx - lo,
        decreases hi - idx,
    {
        if phase.values[idx] == V_UNKNOWN {
            let bb = phase.decode(idx).unwrap();
            proof {
                lemma_board_at(phase.wr as nat, phase.br as nat, idx as int, bb);
            }
            match determine(lower, phase, &bb, pass) {
                Verdict::Value(v) => {
                    assigned.push((idx, v));
                },
                Verdict::Pending(d) => {
                    min_pending = match min_pending {
                        Some(m) => Some(if m < d { m } else { d }),
                        None => Some(d),
                    };
                    open = open + 1;
                },
                Verdict::Open => {
                    open = open + 1;
                },
            }
        }
        idx = idx + 1;
    }
    PassResult { assigned, min_pending, open }
}

/// The values after the decisions of a pass.
pub open spec fn after_pass(sc: Scores, pass: int) -> Seq<u8> {
    Seq::new(
        sc.vals.len(),
        |i: int|
            if sc.vals[i] == V_UNKNOWN && verdict_at(sc, i, pass) is Value {
                verdict_at(sc, i, pass)->Value_0
            } else {
                sc.vals[i]
            },
    )
}

proof fn lemma_assignments(sc: Scores, pass: int, hi: int)
    requires
        0 <= hi <= sc.vals.len() <= usize::MAX,
    ensures
        ({
            let out = assignments(sc, pass, 0, hi);
            &&& forall|k: int|
                0 <= k < out.len() ==> 0 <= (#[trigger] out[k]).0 < hi && sc.vals[out[k].0 as int] == V_UNKNOWN
                    && verdict_at(sc, out[k].0 as int, pass) == Verdict::Value(out[k].1)
            &&& forall|i: int|
                0 <= i < hi && sc.vals[i] == V_UNKNOWN && (#[trigger] verdict_at(sc, i, pass)) is Value ==> exists|k: int|
                    0 <= k < out.len() && (#[trigger] out[k]).0 == i
        }),
    decreases hi,
{
    if hi > 0 {
        lemma_assignments(sc, pass, hi - 1);
        let before = assignments(sc, pass, 0, hi - 1);
        let out = assignments(sc, pass, 0, hi);
        assert forall|i: int|
            0 <= i < hi && sc.vals[i] == V_UNKNOWN && (#[trigger] verdict_at(sc, i, pass)) is Value implies exists|k: int|
            0 <= k < out.len() && (#[trigger] out[k]).0 == i by {
            if i < hi - 1 {
                let k = choose|k: int| 0 <= k < before.len() && (#[trigger] before[k]).0 == i;
                assert(out[k].0 == i);
            } else {
                assert(out[before.len() as int].0 == i);
            }
        }
    }
}

/// Writes decisions into the values; a later decision for the same index wins.
pub fn apply(values: &mut Vec<u8>, assigned: &Vec<(usize, u8)>)
    requires
        forall|k: int| 0 <= k < assigned@.len() ==> (#[trigger] assigned@[k]).0 < old(values)@.len(),
    ensures
        final(values)@.len() == old(values)@.len(),
        forall|i: int|
            0 <= i < old(values)@.len() ==> #[trigger] final(values)@[i] == written(
                old(values)@,
                assigned@,
                assigned@.len() as int,
                i,
            ),
{
    let ghost before = values@;
    let mut k: usize = 0;
    while k < assigned.len()
        invariant
            k <= assigned@.len(),
            values@.len() == before.len(),
            forall|j: int| 0 <= j < assigned@.len() ==> (#[trigger] assigned@[j]).0 < before.len(),
            forall|i: int|
                0 <= i < before.len() ==> #[trigger] values@[i] == written(before, assigned@, k as int, i),
        decreases assigned@.len() - k,
    {
        let (idx, v): (usize, u8) = assigned[k];
        values.set(idx, v);
        k = k + 1;
    }
}

/// The value at `i` after the first `n` decisions.
pub open spec fn written(before: Seq<u8>, assigned: Seq<(usize, u8)>, n: int, i: int) -> u8
    decreases n,
{
    if n <= 0 {
        before[i]
    } else if assigned[n - 1].0 == i {
        assigned[n - 1].1
    } else {
        written(before, assigned, n - 1, i)
    }
}

proof fn lemma_written(before: Seq<u8>, assigned: Seq<(usize, u8)>, n: int, i: int)
    requires
        0 <= n <= assigned.len(),
    ensures
        (forall|k: int| 0 <= k < n ==> (#[trigger] assigned[k]).0 != i) ==> written(before, assigned, n, i) == before[i],
        (exists|k: int| 0 <= k < n && (#[trigger] assigned[k]).0 == i) ==> exists|k: int|
            0 <= k < n && (#[trigger] assigned[k]).0 == i && written(before, assigned, n, i) == assigned[k].1,
    decreases n,
{
    if n > 0 {
        lemma_written(before, assigned, n - 1, i);
        if assigned[n - 1].0 == i {
            assert(assigned[n - 1].0 == i && written(before, assigned, n, i) == assigned[n - 1].1);
        } else if exists|k: int| 0 <= k < n && (#[trigger] assigned[k]).0 == i {
            let k = choose|k: int| 0 <= k < n && (#[trigger] assigned[k]).0 == i;
            assert(k < n - 1 && assigned[k].0 == i);
            let m = choose|m: int|
                0 <= m < n - 1 && (#[trigger] assigned[m]).0 == i && written(before, assigned, n - 1, i)
                    == assigned[m].1;
            assert(0 <= m < n && assigned[m].0 == i && written(before, assigned, n, i) == assigned[m].1);
        }
    }
}

/// Writing a pass's decisions gives the values after the pass.
proof fn lemma_after_pass(sc: Scores, pass: int, after: Seq<u8>)
    requires
        sc.vals.len() <= usize::MAX,
        after.len() == sc.vals.len(),
        ({
            let out = assignments(sc, pass, 0, sc.vals.len() as int);
            forall|i: int|
                0 <= i < after.len() ==> #[trigger] after[i] == written(sc.vals, out, out.len() as int, i)
        }),
    ensures
        after == after_pass(sc, pass),
{
    let n = sc.vals.len() as int;
    let out = assignments(sc, pass, 0, n);
    lemma_assignments(sc, pass, n);
    assert forall|i: int| 0 <= i < n implies after[i] == after_pass(sc, pass)[i] by {
        lemma_written(sc.vals, out, out.len() as int, i);
        if sc.vals[i] == V_UNKNOWN && verdict_at(sc, i, pass) is Value {
            let k = choose|k: int| 0 <= k < out.len() && (#[trigger] out[k]).0 == i;
        } else {
            assert forall|k: int| 0 <= k < out.len() implies (#[trigger] out[k]).0 != i by {}
        }
    }
    assert(after =~= after_pass(sc, pass));
}

/// A child of a position of the phase belongs to the phase or to a lower one.
pub(crate) proof fn lemma_child(sc: Scores, b: BitBoard, c: BitBoard)
    requires
        b.proper(),
        in_phase(sc.wr, sc.br, b),
        b.move_count < u32::MAX,
        b.halfmove_clock < u16::MAX,
        is_child(b, c),
    ensures
        c.proper(),
        c.white_scored > 4 - sc.wr || c.black_scored > 4 - sc.br || 0 <= index_of(sc.br, c) < states_of(sc.wr, sc.br),
{
    let a = lemma_child_action(b, c);
    crate::rules::law_scores_monotone(b@, a);
    assert(c.white_scored as int == c@.white_scored && c.black_scored as int == c@.black_scored);
    if !(c.white_scored > 4 - sc.wr || c.black_scored > 4 - sc.br) {
        assert(in_phase(sc.wr, sc.br, c));
        crate::phase::lemma_index_digits(sc.wr, sc.br, c);
    }
}

spec fn same_rest(a: Scores, b: Scores) -> bool {
    a.lower == b.lower && a.wr == b.wr && a.br == b.br && a.vals.len() == b.vals.len()
}

/// Between the two tables only undecided entries changed, to draws or to wins
/// at distance `p`.
spec fn advanced(a: Scores, b: Scores, p: int) -> bool {
    &&& same_rest(a, b)
    &&& a.vals.len() == states_of(a.wr, a.br)
    &&& forall|i: int| 0 <= i < a.vals.len() ==> entry_advanced(a.vals[i], #[trigger] b.vals[i], p)
}

spec fn entry_advanced(x: u8, y: u8, p: int) -> bool {
    ||| x == y
    ||| x == V_UNKNOWN && (y == V_DRAW || ((is_white_win(y) || is_black_win(y)) && win_dist(y) == p))
}

proof fn lemma_advanced_child(a: Scores, b: Scores, p: int, bb: BitBoard, c: BitBoard)
    requires
        advanced(a, b, p),
        bb.proper(),
        in_phase(a.wr, a.br, bb),
        bb.move_count < u32::MAX,
        bb.halfmove_clock < u16::MAX,
        is_child(bb, c),
    ensures
        entry_advanced(a.of(c), b.of(c), p),
{
    reveal(Scores::of);
    lemma_child(a, bb, c);
}

/// A decided outlook stays.
proof fn lemma_outlook_stays(bb: BitBoard, a: Scores, b: Scores, p: int)
    requires
        advanced(a, b, p),
        bb.proper(),
        in_phase(a.wr, a.br, bb),
        bb.move_count < u32::MAX,
        bb.halfmove_clock < u16::MAX,
        match outlook_of(bb, a) {
            Outlook::Stuck => true,
            Outlook::Win(d) => d <= p,
            Outlook::Loss(d) => true,
            Outlook::Neither => false,
        },
    ensures
        outlook_of(bb, b) == outlook_of(bb, a),
{
    lemma_outlook(bb, a);
    lemma_outlook(bb, b);
    let o = outlook_of(bb, a);
    let pl = bb.current_player;
    assert forall|c: BitBoard| #[trigger] is_child(bb, c) implies entry_advanced(a.of(c), b.of(c), p) by {
        lemma_advanced_child(a, b, p, bb, c);
    }
    match o {
        Outlook::Win(d) => {
            let c = choose|c: BitBoard| #[trigger] is_child(bb, c) && wins(pl, a.of(c)) && win_dist(a.of(c)) + 1 == d;
            assert(is_child(bb, c) && wins(pl, b.of(c)) && win_dist(b.of(c)) + 1 == d);
            assert forall|c: BitBoard| #[trigger] is_child(bb, c) && wins(pl, b.of(c)) implies win_dist(b.of(c)) + 1 >= d by {
                assert(entry_advanced(a.of(c), b.of(c), p));
            }
            assert(has_outlook(bb, b, o));
        },
        Outlook::Loss(d) => {
            let c = choose|c: BitBoard| #[trigger] is_child(bb, c) && win_dist(a.of(c)) + 1 == d;
            assert(loses(pl, a.of(c)));
            assert(is_child(bb, c) && win_dist(b.of(c)) + 1 == d);
            assert forall|c: BitBoard| #[trigger] is_child(bb, c) implies loses(pl, b.of(c)) && win_dist(b.of(c)) + 1 <= d by {
                assert(loses(pl, a.of(c)));
            }
            assert(has_outlook(bb, b, o));
        },
        _ => {
            assert(has_outlook(bb, b, o));
        },
    }
}

/// An outlook beyond pass `p` stays beyond it.
proof fn lemma_outlook_later(bb: BitBoard, a: Scores, b: Scores, p: int)
    requires
        advanced(a, b, p),
        bb.proper(),
        in_phase(a.wr, a.br, bb),
        bb.move_count < u32::MAX,
        bb.halfmove_clock < u16::MAX,
        match outlook_of(bb, a) {
            Outlook::Stuck => false,
            Outlook::Win(d) => d > p,
            Outlook::Loss(d) => d > p,
            Outlook::Neither => true,
        },
    ensures
        match outlook_of(bb, b) {
            Outlook::Stuck => false,
            Outlook::Win(d) => d > p,
            Outlook::Loss(d) => d > p,
            Outlook::Neither => true,
        },
{
    lemma_outlook(bb, a);
    lemma_outlook(bb, b);
    let o = outlook_of(bb, a);
    let q = outlook_of(bb, b);
    let pl = bb.current_player;
    assert forall|c: BitBoard| #[trigger] is_child(bb, c) implies entry_advanced(a.of(c), b.of(c), p) by {
        lemma_advanced_child(a, b, p, bb, c);
    }
    match q {
        Outlook::Stuck => {
            assert(has_outlook(bb, a, Outlook::Stuck));
        },
        Outlook::Win(d) => {
            let c = choose|c: BitBoard| #[trigger] is_child(bb, c) && wins(pl, b.of(c)) && win_dist(b.of(c)) + 1 == d;
            assert(entry_advanced(a.of(c), b.of(c), p));
            if a.of(c) == b.of(c) {
                assert(wins(pl, a.of(c)));
            }
        },
        Outlook::Loss(d) => {
            if forall|c: BitBoard| #[trigger] is_child(bb, c) ==> a.of(c) == b.of(c) {
                let c = choose|c: BitBoard| #[trigger] is_child(bb, c) && win_dist(b.of(c)) + 1 == d;
                assert(is_child(bb, c) && win_dist(a.of(c)) + 1 == d);
                assert forall|c: BitBoard| #[trigger] is_child(bb, c) implies loses(pl, a.of(c)) && win_dist(a.of(c)) + 1
                    <= d by {
                    assert(loses(pl, b.of(c)));
                }
                assert(has_outlook(bb, a, Outlook::Loss(d)));
            } else {
                let c = choose|c: BitBoard| #[trigger] is_child(bb, c) && a.of(c) != b.of(c);
                assert(entry_advanced(a.of(c), b.of(c), p));
                assert(loses(pl, b.of(c)) && win_dist(b.of(c)) + 1 <= d);
            }
        },
        Outlook::Neither => {},
    }
}

/// Distances of outlooks lie between 1 and one more than the cap.
pub(crate) proof fn lemma_outlook_range(bb: BitBoard, sc: Scores)
    ensures
        match outlook_of(bb, sc) {
            Outlook::Win(d) => 1 <= d <= 121,
            Outlook::Loss(d) => 1 <= d <= 121,
            _ => true,
        },
{
    lemma_outlook(bb, sc);
    let pl = bb.current_player;
    match outlook_of(bb, sc) {
        Outlook::Win(d) => {
            let c = choose|c: BitBoard| #[trigger] is_child(bb, c) && wins(pl, sc.of(c)) && win_dist(sc.of(c)) + 1 == d;
        },
        Outlook::Loss(d) => {
            let c = choose|c: BitBoard| #[trigger] is_child(bb, c) && win_dist(sc.of(c)) + 1 == d;
            assert(loses(pl, sc.of(c)));
        },
        _ => {},
    }
}

/// An index is settled: its value is what its outlook says.
pub open spec fn settled(sc: Scores, i: int) -> bool {
    let b = board_at(sc.wr, sc.br, i);
    sc.vals[i] == final_value(outlook_of(b, sc), b.current_player)
}

/// A solved phase: every value agrees with the values one move ahead, and the
/// indices without a position are marked.
pub open spec fn solved(sc: Scores) -> bool {
    forall|i: int|
        0 <= i < sc.vals.len() ==> if has_board(sc.wr, sc.br, i) {
            settled(sc, i)
        } else {
            #[trigger] sc.vals[i] == V_INVALID
        }
}

/// Decided before pass `p`.
spec fn decided(sc: Scores, i: int, p: int) -> bool {
    &&& settled(sc, i)
    &&& match outlook_of(board_at(sc.wr, sc.br, i), sc) {
        Outlook::Stuck => true,
        Outlook::Win(d) => d < p,
        Outlook::Loss(d) => d < p,
        Outlook::Neither => false,
    }
}

/// Not due before pass `p`.
spec fn not_due(sc: Scores, i: int, p: int) -> bool {
    match outlook_of(board_at(sc.wr, sc.br, i), sc) {
        Outlook::Stuck => p <= 1,
        Outlook::Win(d) => d >= p,
        Outlook::Loss(d) => d >= p,
        Outlook::Neither => true,
    }
}

/// What holds before pass `p`.
spec fn ready(sc: Scores, p: int) -> bool {
    &&& sc.vals.len() == states_of(sc.wr, sc.br)
    &&& forall|i: int|
        0 <= i < sc.vals.len() ==> if has_board(sc.wr, sc.br, i) {
            if #[trigger] sc.vals[i] == V_UNKNOWN {
                not_due(sc, i, p)
            } else {
                decided(sc, i, p)
            }
        } else {
            sc.vals[i] == V_INVALID
        }
}

pub(crate) proof fn lemma_board_ok(wr: nat, br: nat, i: int)
    requires
        wr <= 4,
        br <= 4,
        has_board(wr, br, i),
    ensures
        is_board_at(wr, br, i, board_at(wr, br, i)),
{
    let b = choose|b: BitBoard| b.proper() && in_phase(wr, br, b) && #[trigger] index_of(br, b) == i;
    let c = plain(b);
    assert(c@.cells =~= b@.cells);
    assert(c.proper());
    assert(is_board_at(wr, br, i, c));
}

/// A pass moves the frontier by one.
proof fn lemma_pass(a: Scores, b: Scores, p: int)
    requires
        a.wr <= 4,
        a.br <= 4,
        1 <= p <= 120,
        ready(a, p),
        same_rest(a, b),
        b.vals == after_pass(a, p),
    ensures
        ready(b, p + 1),
{
    assert forall|i: int| 0 <= i < a.vals.len() implies entry_advanced(a.vals[i], #[trigger] b.vals[i], p) by {
        if a.vals[i] == V_UNKNOWN {
            assert(has_board(a.wr, a.br, i));
            assert(not_due(a, i, p));
            lemma_outlook_range(board_at(a.wr, a.br, i), a);
        }
    }
    assert(advanced(a, b, p));
    assert forall|i: int| 0 <= i < b.vals.len() implies (if has_board(b.wr, b.br, i) {
        if #[trigger] b.vals[i] == V_UNKNOWN {
            not_due(b, i, p + 1)
        } else {
            decided(b, i, p + 1)
        }
    } else {
        b.vals[i] == V_INVALID
    }) by {
        assert(a.vals[i] == a.vals[i]);
        if has_board(a.wr, a.br, i) {
            let bb = board_at(a.wr, a.br, i);
            lemma_board_ok(a.wr, a.br, i);
            lemma_outlook_range(bb, a);
            if a.vals[i] != V_UNKNOWN {
                assert(decided(a, i, p));
                lemma_outlook_stays(bb, a, b, p);
            } else {
                assert(not_due(a, i, p));
                if verdict_at(a, i, p) is Value {
                    lemma_outlook_stays(bb, a, b, p);
                } else {
                    lemma_outlook_later(bb, a, b, p);
                }
            }
        }
    }
}

proof fn lemma_least_pending(sc: Scores, pass: int, hi: int, i: int)
    requires
        0 <= i < hi <= sc.vals.len(),
        sc.vals[i] == V_UNKNOWN,
        verdict_at(sc, i, pass) is Pending,
    ensures
        least_pending(sc, pass, 0, hi) is Some,
        least_pending(sc, pass, 0, hi)->0 <= verdict_at(sc, i, pass)->Pending_0,
    decreases hi,
{
    if i < hi - 1 {
        lemma_least_pending(sc, pass, hi - 1, i);
    }
}

proof fn lemma_assignments_empty(sc: Scores, pass: int)
    requires
        sc.vals.len() <= usize::MAX,
        assignments(sc, pass, 0, sc.vals.len() as int).len() == 0,
    ensures
        forall|i: int|
            0 <= i < sc.vals.len() && sc.vals[i] == V_UNKNOWN ==> !(#[trigger] verdict_at(sc, i, pass) is Value),
        after_pass(sc, pass) == sc.vals,
{
    lemma_assignments(sc, pass, sc.vals.len() as int);
    assert(after_pass(sc, pass) =~= sc.vals);
}

/// Nothing is due before the smallest pending pass.
proof fn lemma_jump(sc: Scores, p: int, q: int)
    requires
        sc.wr <= 4,
        sc.br <= 4,
        1 <= p <= 120,
        ready(sc, p),
        sc.vals.len() <= usize::MAX,
        assignments(sc, p, 0, sc.vals.len() as int).len() == 0,
        least_pending(sc, p, 0, sc.vals.len() as int) matches Some(m) ==> q <= m || q <= p + 1,
        q >= p,
    ensures
        ready(sc, q),
{
    lemma_assignments_empty(sc, p);
    assert forall|i: int| 0 <= i < sc.vals.len() implies (if has_board(sc.wr, sc.br, i) {
        if #[trigger] sc.vals[i] == V_UNKNOWN {
            not_due(sc, i, q)
        } else {
            decided(sc, i, q)
        }
    } else {
        sc.vals[i] == V_INVALID
    }) by {
        if has_board(sc.wr, sc.br, i) && sc.vals[i] == V_UNKNOWN {
            assert(not_due(sc, i, p));
            assert(!(verdict_at(sc, i, p) is Value));
            lemma_outlook_range(board_at(sc.wr, sc.br, i), sc);
            if verdict_at(sc, i, p) is Pending {
                lemma_least_pending(sc, p, sc.vals.len() as int, i);
            }
        }
    }
}

proof fn lemma_left_open(sc: Scores, pass: int, hi: int, i: int)
    requires
        0 <= i < hi <= sc.vals.len(),
        left_open(sc, pass, 0, hi) == 0,
        sc.vals[i] == V_UNKNOWN,
    ensures
        verdict_at(sc, i, pass) is Value,
    decreases hi,
{
    if i < hi - 1 {
        lemma_left_open(sc, pass, hi - 1, i);
    }
}

/// The values with every undecided entry made a draw.
pub open spec fn drawn(vals: Seq<u8>) -> Seq<u8> {
    Seq::new(
        vals.len(),
        |i: int|
            if vals[i] == V_UNKNOWN {
                V_DRAW
            } else {
                vals[i]
            },
    )
}

/// When no undecided position can be decided any more, the rest are draws and
/// the phase is solved.
proof fn lemma_finish(a: Scores, b: Scores, p: int)
    requires
        a.wr <= 4,
        a.br <= 4,
        ready(a, p),
        same_rest(a, b),
        b.vals == drawn(a.vals),
        forall|i: int|
            0 <= i < a.vals.len() && has_board(a.wr, a.br, i) && #[trigger] a.vals[i] == V_UNKNOWN
                ==> match outlook_of(board_at(a.wr, a.br, i), a) {
                Outlook::Stuck => false,
                Outlook::Win(d) => d > 120,
                Outlook::Loss(d) => d > 120,
                Outlook::Neither => true,
            },
    ensures
        solved(b),
{
    assert(advanced(a, b, 1000));
    assert forall|i: int| 0 <= i < b.vals.len() implies (if has_board(b.wr, b.br, i) {
        settled(b, i)
    } else {
        #[trigger] b.vals[i] == V_INVALID
    }) by {
        assert(a.vals[i] == a.vals[i]);
        if has_board(a.wr, a.br, i) {
            let bb = board_at(a.wr, a.br, i);
            lemma_board_ok(a.wr, a.br, i);
            lemma_outlook_range(bb, a);
            if outlook_of(bb, a) is Neither {
                lemma_outlook_drawn(bb, a, b);
            } else {
                lemma_outlook_stays(bb, a, b, 1000);
            }
        }
    }
}

/// Making undecided entries draws changes no outlook of "neither".
proof fn lemma_outlook_drawn(bb: BitBoard, a: Scores, b: Scores)
    requires
        same_rest(a, b),
        a.vals.len() == states_of(a.wr, a.br),
        b.vals == drawn(a.vals),
        bb.proper(),
        in_phase(a.wr, a.br, bb),
        bb.move_count < u32::MAX,
        bb.halfmove_clock < u16::MAX,
        outlook_of(bb, a) is Neither,
    ensures
        outlook_of(bb, b) is Neither,
{
    lemma_outlook(bb, a);
    lemma_outlook(bb, b);
    let pl = bb.current_player;
    assert forall|c: BitBoard| #[trigger] is_child(bb, c) implies wins(pl, a.of(c)) == wins(pl, b.of(c)) && loses(
        pl,
        a.of(c),
    ) == loses(pl, b.of(c)) by {
        reveal(Scores::of);
        lemma_child(a, bb, c);
    }
    let c = choose|c: BitBoard| #[trigger] is_child(bb, c) && !loses(pl, a.of(c));
    assert(is_child(bb, c) && !loses(pl, b.of(c)));
    assert(has_outlook(bb, b, Outlook::Neither));
}

/// Marks the indices of a range that no position has.
pub fn mark_invalid(phase: &mut Phase, lo: usize, hi: usize)
    requires
        old(phase).wf(),
        lo <= hi <= old(phase).values@.len(),
    ensures
        final(phase).wf(),
        final(phase).wr == old(phase).wr,
        final(phase).br == old(phase).br,
        forall|i: int|
            0 <= i < old(phase).values@.len() ==> #[trigger] final(phase).values@[i] == (if lo <= i < hi && !has_board(
                old(phase).wr as nat,
                old(phase).br as nat,
                i,
            ) {
                V_INVALID
            } else {
                old(phase).values@[i]
            }),
{
    let ghost start = *phase;
    let mut idx: usize = lo;
    while idx < hi
        invariant
            phase.wf(),
            phase.wr == start.wr,
            phase.br == start.br,
            lo <= idx <= hi <= start.values@.len(),
            phase.values@.len() == start.values@.len(),
            forall|i: int|
                0 <= i < start.values@.len() ==> #[trigger] phase.values@[i] == (if lo <= i < idx && !has_board(
                    start.wr as nat,
                    start.br as nat,
                    i,
                ) {
                    V_INVALID
                } else {
                    start.values@[i]
                }),
        decreases hi - idx,
    {
        match phase.decode(idx) {
            None => {
                phase.values.set(idx, V_INVALID);
            },
            Some(b) => {
                proof {
                    lemma_board_at(start.wr as nat, start.br as nat, idx as int, b);
                }
            },
        }
        idx = idx + 1;
    }
}

/// The pass that follows one with this result; none when solving is over.
pub fn next_pass(pass: u8, assigned: usize, min_pending: Option<u8>, open: usize) -> (r: Option<u8>)
    ensures
        r == (if open == 0 || pass >= MAX_DIST {
            None
        } else if assigned > 0 {
            Some((pass + 1) as u8)
        } else {
            match min_pending {
                Some(d) => Some(if d <= pass { (pass + 1) as u8 } else if d > MAX_DIST { MAX_DIST } else { d }),
                None => None,
            }
        }),
{
    if open == 0 || pass >= MAX_DIST {
        return None;
    }
    if assigned > 0 {
        // New values may decide positions one pass on: step, don't jump.
        return Some(pass + 1);
    }
    match min_pending {
        Some(d) => {
            if d <= pass {
                Some(pass + 1)
            } else if d > MAX_DIST {
                Some(MAX_DIST)
            } else {
                Some(d)
            }
        },
        None => None,
    }
}

/// Solves the phase with `wr` white and `br` black barrels left. Lower phases
/// that are not loaded count as draws.
pub fn solve_phase(lower: &Tablebase, wr: usize, br: usize) -> (r: Phase)
    requires
        lower.wf(),
        wr <= 4,
        br <= 4,
        states_of(wr as nat, br as nat) <= usize::MAX,
    ensures
        r.wf(),
        r.wr == wr,
        r.br == br,
        solved(Scores { lower: *lower, wr: wr as nat, br: br as nat, vals: r.values@ }),
{
    let mut phase = Phase::new(wr, br);
    let n: usize = phase.num_states();
    mark_invalid(&mut phase, 0, n);
    let mut pass: u8 = 1;
    let ghost mut sc = Scores { lower: *lower, wr: wr as nat, br: br as nat, vals: phase.values@ };
    let mut running: bool = true;
    proof {
        assert forall|i: int| 0 <= i < sc.vals.len() implies (if has_board(sc.wr, sc.br, i) {
            if #[trigger] sc.vals[i] == V_UNKNOWN {
                not_due(sc, i, 1)
            } else {
                decided(sc, i, 1)
            }
        } else {
            sc.vals[i] == V_INVALID
        }) by {
            lemma_outlook_range(board_at(sc.wr, sc.br, i), sc);
        }
    }
    while running
        invariant
            lower.wf(),
            phase.wf(),
            wr <= 4,
            br <= 4,
            phase.wr == wr,
            phase.br == br,
            n == phase.values@.len(),
            n == states_of(wr as nat, br as nat),
            sc == (Scores { lower: *lower, wr: wr as nat, br: br as nat, vals: phase.values@ }),
            running ==> 1 <= pass <= 120 && ready(sc, pass as int),
            !running ==> finished(sc),
        decreases (if running { 1int } else { 0int }), 121 - pass,
    {
        proof {
            assert forall|i: int| 0 <= i < n && #[trigger] phase.values@[i] == V_UNKNOWN implies has_board(
                wr as nat,
                br as nat,
                i,
            ) by {
                assert(sc.vals[i] == V_UNKNOWN);
            }
        }
        let result = scan(lower, &phase, pass, 0, n);
        let ghost before = sc;
        proof {
            lemma_assignments(before, pass as int, n as int);
        }
        apply(&mut phase.values, &result.assigned);
        proof {
            sc = Scores { lower: *lower, wr: wr as nat, br: br as nat, vals: phase.values@ };
            lemma_after_pass(before, pass as int, phase.values@);
            lemma_pass(before, sc, pass as int);
        }
        match next_pass(pass, result.assigned.len(), result.min_pending, result.open) {
            Some(next) => {
                proof {
                    if result.assigned@.len() == 0 {
                        lemma_assignments_empty(before, pass as int);
                        lemma_jump(before, pass as int, next as int);
                    }
                }
                pass = next;
            },
            None => {
                running = false;
                proof {
                    lemma_finished(before, sc, pass as int);
                }
            },
        }
    }
    let ghost last = sc;
    let mut i: usize = 0;
    while i < n
        invariant
            i <= n,
            n == phase.values@.len(),
            n == last.vals.len(),
            phase.wf(),
            phase.wr == wr,
            phase.br == br,
            forall|k: int|
                0 <= k < n ==> #[trigger] phase.values@[k] == (if k < i { drawn(last.vals)[k] } else { last.vals[k] }),
        decreases n - i,
    {
        if phase.values[i] == V_UNKNOWN {
            phase.values.set(i, V_DRAW);
        }
        i = i + 1;
    }
    proof {
        let done = Scores { lower: *lower, wr: wr as nat, br: br as nat, vals: phase.values@ };
        assert(done.vals =~= drawn(last.vals));
        let p = choose|p: int| #[trigger] ready(last, p) && nothing_due(last);
        lemma_finish(last, done, p);
    }
    phase
}

/// No undecided position can still be decided within the cap.
spec fn nothing_due(sc: Scores) -> bool {
    forall|i: int|
        0 <= i < sc.vals.len() && has_board(sc.wr, sc.br, i) && #[trigger] sc.vals[i] == V_UNKNOWN ==> match outlook_of(
            board_at(sc.wr, sc.br, i),
            sc,
        ) {
            Outlook::Stuck => false,
            Outlook::Win(d) => d > 120,
            Outlook::Loss(d) => d > 120,
            Outlook::Neither => true,
        }
}

spec fn finished(sc: Scores) -> bool {
    exists|p: int| #[trigger] ready(sc, p) && nothing_due(sc)
}

/// Solving stops only when nothing more is due.
proof fn lemma_finished(a: Scores, b: Scores, p: int)
    requires
        a.wr <= 4,
        a.br <= 4,
        1 <= p <= 120,
        ready(a, p),
        ready(b, p + 1),
        same_rest(a, b),
        b.vals == after_pass(a, p),
        a.vals.len() <= usize::MAX,
        left_open(a, p, 0, a.vals.len() as int) == 0 || p >= 120 || (assignments(a, p, 0, a.vals.len() as int).len() == 0
            && least_pending(a, p, 0, a.vals.len() as int) is None),
    ensures
        finished(b),
{
    assert forall|i: int|
        0 <= i < b.vals.len() && has_board(b.wr, b.br, i) && #[trigger] b.vals[i] == V_UNKNOWN implies match outlook_of(
        board_at(b.wr, b.br, i),
        b,
    ) {
        Outlook::Stuck => false,
        Outlook::Win(d) => d > 120,
        Outlook::Loss(d) => d > 120,
        Outlook::Neither => true,
    } by {
        assert(not_due(b, i, p + 1));
        assert(a.vals[i] == V_UNKNOWN);
        if p < 120 {
            if left_open(a, p, 0, a.vals.len() as int) == 0 {
                lemma_left_open(a, p, a.vals.len() as int, i);
                lemma_board_ok(a.wr, a.br, i);
                lemma_value_known(a, i, p);
            } else {
                lemma_assignments_empty(a, p);
                assert(a == b);
                assert(!(verdict_at(a, i, p) is Value));
                if verdict_at(a, i, p) is Pending {
                    lemma_least_pending(a, p, a.vals.len() as int, i);
                }
            }
        }
    }
}

/// A decision is never "unknown".
proof fn lemma_value_known(sc: Scores, i: int, p: int)
    requires
        verdict_at(sc, i, p) is Value,
    ensures
        verdict_at(sc, i, p)->Value_0 != V_UNKNOWN,
{
}

/// Decided within `d` moves.
spec fn near(v: u8, d: int) -> bool {
    (is_white_win(v) || is_black_win(v)) && win_dist(v) <= d
}

/// The tables agree on everything either of them decides within `d` moves.
spec fn agree_within(a: Scores, b: Scores, d: int) -> bool {
    forall|i: int|
        0 <= i < a.vals.len() && has_board(a.wr, a.br, i) && (near(#[trigger] a.vals[i], d) || near(b.vals[i], d))
            ==> a.vals[i] == b.vals[i]
}

proof fn lemma_agree_child(a: Scores, b: Scores, d: int, bb: BitBoard, c: BitBoard)
    requires
        same_rest(a, b),
        a.vals.len() == states_of(a.wr, a.br),
        agree_within(a, b, d),
        bb.proper(),
        in_phase(a.wr, a.br, bb),
        bb.move_count < u32::MAX,
        bb.halfmove_clock < u16::MAX,
        is_child(bb, c),
        near(a.of(c), d) || near(b.of(c), d),
    ensures
        a.of(c) == b.of(c),
{
    reveal(Scores::of);
    lemma_child(a, bb, c);
    if !(c.white_scored > 4 - a.wr || c.black_scored > 4 - a.br) {
        let act = lemma_child_action(bb, c);
        crate::rules::law_scores_monotone(bb@, act);
        assert(c.white_scored as int == c@.white_scored && c.black_scored as int == c@.black_scored);
        assert(in_phase(a.wr, a.br, c));
        assert(has_board(a.wr, a.br, index_of(a.br, c)));
        assert(a.vals[index_of(a.br, c)] == a.of(c));
    }
}

proof fn lemma_agree_next(a: Scores, b: Scores, d: int, i: int)
    requires
        a.wr <= 4,
        a.br <= 4,
        same_rest(a, b),
        a.vals.len() == states_of(a.wr, a.br),
        solved(a),
        solved(b),
        1 <= d <= 120,
        agree_within(a, b, d - 1),
        0 <= i < a.vals.len(),
        has_board(a.wr, a.br, i),
        near(a.vals[i], d),
    ensures
        a.vals[i] == b.vals[i],
{
    if !near(a.vals[i], d - 1) {
        let bb = board_at(a.wr, a.br, i);
        let p = bb.current_player;
        lemma_board_ok(a.wr, a.br, i);
        lemma_outlook(bb, a);
        lemma_outlook(bb, b);
        lemma_outlook_range(bb, a);
        lemma_outlook_range(bb, b);
        assert(settled(a, i) && settled(b, i)) by {
            assert(a.vals[i] == a.vals[i] && b.vals[i] == b.vals[i]);
        }
        match outlook_of(bb, a) {
            Outlook::Win(e) => {
                assert(e == d);
                let c = choose|c: BitBoard| #[trigger] is_child(bb, c) && wins(p, a.of(c)) && win_dist(a.of(c)) + 1 == d;
                lemma_agree_child(a, b, d - 1, bb, c);
                assert(is_child(bb, c) && wins(p, b.of(c)));
                match outlook_of(bb, b) {
                    Outlook::Win(f) => {
                        assert(f <= d);
                        if f < d {
                            assert(near(b.vals[i], d - 1));
                        }
                    },
                    Outlook::Loss(f) => {
                        assert(loses(p, b.of(c)));
                    },
                    _ => {},
                }
            },
            Outlook::Loss(e) => {
                assert(e == d);
                assert forall|c: BitBoard| #[trigger] is_child(bb, c) implies a.of(c) == b.of(c) by {
                    assert(loses(p, a.of(c)) && win_dist(a.of(c)) + 1 <= d);
                    lemma_agree_child(a, b, d - 1, bb, c);
                }
                let c = choose|c: BitBoard| #[trigger] is_child(bb, c) && win_dist(a.of(c)) + 1 == d;
                assert(is_child(bb, c) && win_dist(b.of(c)) + 1 == d);
                assert forall|c: BitBoard| #[trigger] is_child(bb, c) implies loses(p, b.of(c)) && win_dist(b.of(c)) + 1
                    <= d by {
                    assert(loses(p, a.of(c)) && win_dist(a.of(c)) + 1 <= d);
                }
                assert(has_outlook(bb, b, Outlook::Loss(d)));
            },
            _ => {},
        }
    } else {
        assert(a.vals[i] == b.vals[i]);
    }
}

proof fn lemma_agree(a: Scores, b: Scores, d: int)
    requires
        a.wr <= 4,
        a.br <= 4,
        same_rest(a, b),
        a.vals.len() == states_of(a.wr, a.br),
        solved(a),
        solved(b),
        0 <= d <= 120,
    ensures
        agree_within(a, b, d),
    decreases d,
{
    if d == 0 {
        assert forall|i: int|
            0 <= i < a.vals.len() && has_board(a.wr, a.br, i) && (near(#[trigger] a.vals[i], 0) || near(b.vals[i], 0))
                implies a.vals[i] == b.vals[i] by {
            let bb = board_at(a.wr, a.br, i);
            lemma_outlook_range(bb, a);
            lemma_outlook_range(bb, b);
            assert(settled(a, i) && settled(b, i)) by {
                assert(b.vals[i] == b.vals[i]);
            }
        }
    } else {
        lemma_agree(a, b, d - 1);
        assert(agree_within(b, a, d - 1)) by {
            assert forall|i: int|
                0 <= i < b.vals.len() && has_board(b.wr, b.br, i) && (near(#[trigger] b.vals[i], d - 1) || near(
                    a.vals[i],
                    d - 1,
                )) implies b.vals[i] == a.vals[i] by {
                assert(a.vals[i] == a.vals[i]);
            }
        }
        assert forall|i: int|
            0 <= i < a.vals.len() && has_board(a.wr, a.br, i) && (near(#[trigger] a.vals[i], d) || near(b.vals[i], d))
                implies a.vals[i] == b.vals[i] by {
            if near(a.vals[i], d) {
                lemma_agree_next(a, b, d, i);
            } else {
                lemma_agree_next(b, a, d, i);
            }
        }
    }
}

/// A phase has one solution: agreeing with the values one move ahead, with
/// distances, determines every value.
pub proof fn law_solution_unique(a: Scores, b: Scores)
    requires
        a.lower == b.lower,
        a.wr == b.wr,
        a.br == b.br,
        a.wr <= 4,
        a.br <= 4,
        a.vals.len() == states_of(a.wr, a.br),
        b.vals.len() == states_of(a.wr, a.br),
        solved(a),
        solved(b),
    ensures
        a.vals == b.vals,
{
    lemma_agree(a, b, 120);
    assert forall|i: int| 0 <= i < a.vals.len() implies a.vals[i] == b.vals[i] by {
        if has_board(a.wr, a.br, i) {
            let bb = board_at(a.wr, a.br, i);
            lemma_outlook_range(bb, a);
            lemma_outlook_range(bb, b);
            assert(settled(a, i) && settled(b, i)) by {
                assert(a.vals[i] == a.vals[i] && b.vals[i] == b.vals[i]);
            }
        } else {
            assert(a.vals[i] == V_INVALID && b.vals[i] == V_INVALID);
        }
    }
    assert(a.vals =~= b.vals);
}

impl Tablebase {
    /// Solves a phase and stores it. The phases it can score into should be
    /// present already.
    pub fn solve(&mut self, wr: usize, br: usize)
        requires
            old(self).wf(),
            wr <= 4,
            br <= 4,
            states_of(wr as nat, br as nat) <= usize::MAX,
        ensures
            final(self).wf(),
            final(self).packed == old(self).packed,
            final(self).phases@.len() == 25,
            forall|i: int| 0 <= i < 25 && i != wr * 5 + br ==> final(self).phases@[i] == old(self).phases@[i],
            final(self).phases@[wr * 5 + br] matches Some(p) && p.wr == wr && p.br == br && solved(
                Scores { lower: *old(self), wr: wr as nat, br: br as nat, vals: p.values@ },
            ),
    {
        let phase = solve_phase(self, wr, br);
        self.insert(phase);
    }
}

impl Default for Tablebase {
    fn default() -> (r: Self)
        ensures
            r.wf(),
            forall|i: int| 0 <= i < 25 ==> #[trigger] r.phases@[i] is None,
            forall|i: int| 0 <= i < 5 ==> #[trigger] r.packed@[i] is None,
    {
        Tablebase::new()
    }
}

} // verus!
