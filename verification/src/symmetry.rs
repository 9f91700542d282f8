//! The colour mirror of game positions and what the tables say of it.
use vstd::prelude::*;
use crate::bitboard::BitBoard;
use crate::bits::{group_has, lemma_mask_ext, on};
use crate::board::{Cell, Player};
use crate::mirror::{flip, law_mirror_involution, lemma_flip, mirror_state, swap_cell};
use crate::packed::{is_mirror_of, lemma_mirrored};
use crate::phase::{lemma_pail_number, pail_number};
use crate::play::at_most_one;
use crate::rules::{barrel_of, barrel_total, barrels_on, goal_row_of, GameState};
use crate::squares::{on_board, row_of};
use crate::tablebase::{negated, phase_answer, Tablebase};

verus! {

/// The squares below `n` that hold a barrel of `p`.
spec fn barrel_set(cells: Seq<Cell>, p: Player, n: int) -> Set<int> {
    vstd::set_lib::set_int_range(0, n).filter(|s: int| cells[s] == barrel_of(p))
}

proof fn lemma_barrel_set(cells: Seq<Cell>, p: Player, n: nat)
    ensures
        barrel_set(cells, p, n as int).finite(),
        barrel_set(cells, p, n as int).len() == barrels_on(cells, p, n),
    decreases n,
{
    vstd::set_lib::lemma_int_range(0, n as int);
    if n == 0 {
        assert(barrel_set(cells, p, 0) =~= Set::empty());
    } else {
        let m = (n - 1) as nat;
        lemma_barrel_set(cells, p, m);
        let a = barrel_set(cells, p, m as int);
        let b = barrel_set(cells, p, n as int);
        if cells[m as int] == barrel_of(p) {
            assert(b =~= a.insert(m as int));
        } else {
            assert(b =~= a);
        }
    }
}

/// The mirror has as many barrels of each side as the position has of the other.
pub proof fn law_mirror_barrels(s: GameState, p: Player)
    requires
        s.cells.len() == 36,
    ensures
        barrels_on(mirror_state(s).cells, p, 36) == barrels_on(s.cells, p.opponent(), 36),
        barrel_total(mirror_state(s), p) == barrel_total(s, p.opponent()),
{
    let m = mirror_state(s);
    let a = barrel_set(s.cells, p.opponent(), 36);
    let b = barrel_set(m.cells, p, 36);
    lemma_barrel_set(s.cells, p.opponent(), 36);
    lemma_barrel_set(m.cells, p, 36);
    let f = |t: int| flip(t);
    assert(a.map(f) =~= b) by {
        assert forall|t: int| a.map(f).contains(t) == b.contains(t) by {
            if a.map(f).contains(t) {
                let u = choose|u: int| a.contains(u) && f(u) == t;
                lemma_flip(u);
            }
            if b.contains(t) {
                lemma_flip(t);
                assert(a.contains(flip(t)));
                assert(f(flip(t)) == t);
            }
        }
    }
    assert forall|x: int, y: int| a.contains(x) && a.contains(y) && f(x) == f(y) implies x == y by {
        lemma_flip(x);
        lemma_flip(y);
    }
    vstd::set_lib::lemma_map_size(a, b, f);
}

/// Pieces of the mirror stand on the flipped squares of the other side's.
pub proof fn lemma_mirror_masks(m: BitBoard, b: BitBoard, s: int)
    requires
        b.inv(),
        is_mirror_of(m, b),
        on_board(s),
    ensures
        on(m.white_barrels, s) == on(b.black_barrels, flip(s)),
        on(m.black_barrels, s) == on(b.white_barrels, flip(s)),
        on(m.white_pail, s) == on(b.black_pail, flip(s)),
        on(m.black_pail, s) == on(b.white_pail, flip(s)),
{
    lemma_flip(s);
    m.lemma_square(s);
    b.lemma_square(flip(s));
    assert(m.cell_at(s) == m@.cells[s]);
    assert(m@.cells[s] == swap_cell(b@.cells[flip(s)]));
    assert(b@.cells[flip(s)] == b.cell_at(flip(s)));
}

/// The flip of a mask of at most one square.
pub proof fn lemma_mirror_pail(m: u64, b: u64)
    requires
        at_most_one(b),
        forall|s: int| #[trigger] on(m, s) == (on_board(s) && on(b, flip(s))),
    ensures
        at_most_one(m),
        (m != 0) == (b != 0),
{
    broadcast use group_has;

    lemma_pail_number(b);
    if b == 0 {
        assert forall|s: int| 0 <= s < 64 implies on(m, s) == on(0u64, s) by {}
        lemma_mask_ext(m, 0);
    } else {
        let k = pail_number(b) - 1;
        lemma_flip(k);
        let t = flip(k) as u64;
        assert forall|s: int| 0 <= s < 64 implies on(m, s) == on(1u64 << t, s) by {
            if on_board(s) {
                lemma_flip(s);
            }
        }
        lemma_mask_ext(m, 1u64 << t);
        assert(on(m, t as int));
        assert(!on(0u64, t as int));
    }
}

/// The members of `m` below `n`, flipped, form a mask.
proof fn lemma_mirror_mask_below(m: u64, n: int) -> (r: u64)
    requires
        0 <= n <= 36,
    ensures
        forall|s: int| #[trigger] on(r, s) == (on_board(s) && flip(s) < n && on(m, flip(s))),
    decreases n,
{
    broadcast use group_has;

    if n == 0 {
        assert forall|s: int| on_board(s) implies flip(s) >= 0 by {
            lemma_flip(s);
        }
        0u64
    } else {
        let q = lemma_mirror_mask_below(m, n - 1);
        lemma_flip(n - 1);
        let t = flip(n - 1) as u64;
        let r = if on(m, n - 1) { q | (1u64 << t) } else { q };
        assert forall|s: int| #[trigger] on(r, s) == (on_board(s) && flip(s) < n && on(m, flip(s))) by {
            if on_board(s) {
                lemma_flip(s);
            }
        }
        r
    }
}

proof fn lemma_mirror_mask(m: u64) -> (r: u64)
    ensures
        forall|s: int| #[trigger] on(r, s) == (on_board(s) && on(m, flip(s))),
{
    let r = lemma_mirror_mask_below(m, 36);
    assert forall|s: int| #[trigger] on(r, s) == (on_board(s) && on(m, flip(s))) by {
        if on_board(s) {
            lemma_flip(s);
        }
    }
    r
}

/// A colour mirror of a sound board.
pub proof fn mirror_board(b: BitBoard) -> (m: BitBoard)
    requires
        b.inv(),
    ensures
        is_mirror_of(m, b),
{
    let wb = lemma_mirror_mask(b.black_barrels);
    let bb = lemma_mirror_mask(b.white_barrels);
    let wp = lemma_mirror_mask(b.black_pail);
    let bp = lemma_mirror_mask(b.white_pail);
    let m = BitBoard {
        white_barrels: wb,
        black_barrels: bb,
        white_pail: wp,
        black_pail: bp,
        occupied: wb | bb | wp | bp,
        current_player: b.current_player.opponent(),
        awaiting_barrel: b.awaiting_barrel,
        move_count: 0,
        halfmove_clock: 0,
        hash: crate::rules::hash_of(crate::rules::initial_state()),
        white_pail_placed: b.black_pail_placed,
        black_pail_placed: b.white_pail_placed,
        white_barrels_off_board: b.black_barrels_off_board,
        black_barrels_off_board: b.white_barrels_off_board,
        white_scored: b.black_scored,
        black_scored: b.white_scored,
    };
    let cells = mirror_state(b@).cells;
    assert forall|s: int| 0 <= s < 36 implies {
        &&& on(m.white_barrels, s) == (cells[s] == Cell::WhiteBarrel)
        &&& on(m.black_barrels, s) == (cells[s] == Cell::BlackBarrel)
        &&& on(m.white_pail, s) == (cells[s] == Cell::WhitePail)
        &&& on(m.black_pail, s) == (cells[s] == Cell::BlackPail)
    } by {
        lemma_flip(s);
        b.lemma_square(flip(s));
    }
    crate::convert::lemma_collected(m, cells);
    m
}

/// The mirror of a game position is a game position.
pub proof fn law_mirror_wf(m: BitBoard, b: BitBoard)
    requires
        b.wf(),
        is_mirror_of(m, b),
    ensures
        m.wf(),
        b.shows_pails() ==> m.shows_pails(),
        m.white_scored == b.black_scored,
        m.black_scored == b.white_scored,
        m.current_player == b.current_player.opponent(),
{
    law_mirror_barrels(b@, Player::White);
    law_mirror_barrels(b@, Player::Black);
    assert(m.white_scored as int == b@.black_scored);
    assert(m.black_scored as int == b@.white_scored);
    assert forall|s: int| #[trigger] on(m.white_pail, s) == (on_board(s) && on(b.black_pail, flip(s))) by {
        m.lemma_square(s);
        if on_board(s) {
            lemma_mirror_masks(m, b, s);
        }
    }
    assert forall|s: int| #[trigger] on(m.black_pail, s) == (on_board(s) && on(b.white_pail, flip(s))) by {
        m.lemma_square(s);
        if on_board(s) {
            lemma_mirror_masks(m, b, s);
        }
    }
    lemma_mirror_pail(m.white_pail, b.black_pail);
    lemma_mirror_pail(m.black_pail, b.white_pail);
    assert forall|s: int| #[trigger] on(m.white_barrels, s) implies row_of(s) != goal_row_of(Player::White) by {
        m.lemma_square(s);
        lemma_mirror_masks(m, b, s);
        lemma_flip(s);
        assert(on(b.black_barrels, flip(s)));
    }
    assert forall|s: int| #[trigger] on(m.black_barrels, s) implies row_of(s) != goal_row_of(Player::Black) by {
        m.lemma_square(s);
        lemma_mirror_masks(m, b, s);
        lemma_flip(s);
        assert(on(b.white_barrels, flip(s)));
    }
}

/// With one table of a mirrored pair loaded, the value of the mirrored position
/// is the value of the position with the sides exchanged.
pub proof fn law_mirrored_lookup(tb: Tablebase, b: BitBoard, m: BitBoard)
    requires
        tb.wf(),
        b.inv(),
        b.white_scored < 4,
        b.black_scored < 4,
        b.white_scored != b.black_scored,
        is_mirror_of(m, b),
        tb.phases@[(4 - b.white_scored) * 5 + (4 - b.black_scored)] is Some,
        tb.phases@[(4 - b.black_scored) * 5 + (4 - b.white_scored)] is None,
    ensures
        tb.value_of(m) == (match tb.value_of(b) {
            Some(v) => Some(negated(v)),
            None => None,
        }),
{
    assert(m.white_scored as int == b@.black_scored);
    assert(m.black_scored as int == b@.white_scored);
    let c = crate::phase::plain(b);
    assert(is_mirror_of(c, m)) by {
        law_mirror_involution(b@);
        assert(c@.cells =~= b@.cells);
        let mm = mirror_state(m@);
        assert(mm.cells =~= mirror_state(mirror_state(b@)).cells);
    }
    lemma_mirrored(c, m);
    let p = tb.phases@[(4 - b.white_scored) * 5 + (4 - b.black_scored)]->0;
    assert(phase_answer(p, c) == phase_answer(p, b));
}

} // verus!
