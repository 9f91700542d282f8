//! What a solved table says of play: wins can be carried home.
use vstd::prelude::*;
use crate::bitboard::BitBoard;
use crate::phase::{in_phase, index_of, plain, states_of, win_dist, MAX_DIST, V_DRAW};
use crate::retrograde::{
    is_child, lemma_board_at, lemma_outlook, lemma_outlook_range, loses, outlook_of, settled, solved, wins, Outlook,
    Scores,
};

verus! {

/// In a solved phase a win in some moves has a move to a win in one move less,
/// every move from a loss leads to a loss that is no further away, with one that
/// holds out longest, and from a draw no move wins that is close enough to be
/// held, while some move does not lose, unless there is no move or every loss is
/// too far away to be held.
pub proof fn law_wins_are_carried_home(sc: Scores, b: BitBoard)
    requires
        1 <= sc.wr <= 4,
        1 <= sc.br <= 4,
        sc.vals.len() == states_of(sc.wr, sc.br),
        solved(sc),
        b.proper(),
        in_phase(sc.wr, sc.br, b),
        b == plain(b),
    ensures
        ({
            let p = b.current_player;
            let v = sc.of(b);
            &&& wins(p, v) ==> exists|c: BitBoard| #[trigger]
                is_child(b, c) && wins(p, sc.of(c)) && win_dist(sc.of(c)) + 1 == win_dist(v)
            &&& loses(p, v) ==> {
                &&& forall|c: BitBoard| #[trigger]
                    is_child(b, c) ==> loses(p, sc.of(c)) && win_dist(sc.of(c)) + 1 <= win_dist(v)
                &&& exists|c: BitBoard| #[trigger] is_child(b, c) && win_dist(sc.of(c)) + 1 == win_dist(v)
            }
            &&& v == V_DRAW ==> {
                &&& forall|c: BitBoard| #[trigger]
                    is_child(b, c) && wins(p, sc.of(c)) ==> win_dist(sc.of(c)) >= MAX_DIST
                &&& (forall|c: BitBoard| #[trigger] is_child(b, c) ==> loses(p, sc.of(c)) && win_dist(sc.of(c)) < MAX_DIST)
                    ==> forall|c: BitBoard| !#[trigger] is_child(b, c)
            }
            &&& wins(p, v) || loses(p, v) || v == V_DRAW
        }),
{
    reveal(Scores::of);
    let i = index_of(sc.br, b);
    crate::phase::lemma_index_digits(sc.wr, sc.br, b);
    lemma_board_at(sc.wr, sc.br, i, b);
    assert(settled(sc, i)) by {
        assert(sc.vals[i] == sc.vals[i]);
    }
    lemma_outlook(b, sc);
    lemma_outlook_range(b, sc);
    let p = b.current_player;
    let o = outlook_of(b, sc);
    match o {
        Outlook::Stuck => {},
        Outlook::Win(d) => {
            let c = choose|c: BitBoard| #[trigger] is_child(b, c) && wins(p, sc.of(c)) && win_dist(sc.of(c)) + 1 == d;
            assert(is_child(b, c));
        },
        Outlook::Loss(d) => {
            let c = choose|c: BitBoard| #[trigger] is_child(b, c) && win_dist(sc.of(c)) + 1 == d;
            assert(is_child(b, c));
        },
        Outlook::Neither => {
            let c = choose|c: BitBoard| #[trigger] is_child(b, c) && !loses(p, sc.of(c));
            assert(is_child(b, c));
        },
    }
}

} // verus!
