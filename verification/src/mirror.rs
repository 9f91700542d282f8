//! The colour symmetry of the game: swap the sides and flip the rows.
use vstd::prelude::*;
use crate::bitboard::BitBoard;
use crate::bits::{drop_lowest, group_has, lemma_empty, lemma_mask_ext, lowest, on};
use crate::board::{Cell, Player};
use crate::rules::{barrel_of, hop, jump_chain, jump_ok, lemma_ray, pail_of, stop, Action, GameState};
use crate::squares::{bit, col_of, dir_col, dir_row, on_board, ray, row_of, BOARD_SIZE};

verus! {

/// The square in the same column and the opposite row.
pub open spec fn flip(s: int) -> int {
    (5 - s / 6) * 6 + s % 6
}

pub proof fn lemma_flip(s: int)
    requires
        on_board(s),
    ensures
        on_board(flip(s)),
        flip(flip(s)) == s,
        row_of(flip(s)) == 5 - row_of(s),
        col_of(flip(s)) == col_of(s),
{
}

/// The square in the same column and the opposite row.
pub fn mirror_sq(sq: usize) -> (r: usize)
    requires
        sq < 36,
    ensures
        r == flip(sq as int),
        r < 36,
{
    (BOARD_SIZE - 1 - sq / BOARD_SIZE) * BOARD_SIZE + sq % BOARD_SIZE
}

/// A mask of squares with its rows flipped.
pub fn mirror_rows(mask: u64) -> (r: u64)
    requires
        forall|s: int| #[trigger] on(mask, s) ==> on_board(s),
    ensures
        forall|s: int| #[trigger] on(r, s) == (on_board(s) && on(mask, flip(s))),
{
    let mut out: u64 = 0;
    let mut m: u64 = mask;
    proof {
        broadcast use group_has;

        assert forall|s: int| #[trigger] on(out, s) == (on_board(s) && on(mask, flip(s)) && !on(m, flip(s))) by {}
    }
    while m != 0
        invariant
            forall|s: int| #[trigger] on(mask, s) ==> on_board(s),
            forall|s: int| #[trigger] on(m, s) ==> on(mask, s),
            forall|s: int| #[trigger] on(out, s) == (on_board(s) && on(mask, flip(s)) && !on(m, flip(s))),
        decreases m,
    {
        broadcast use group_has;

        let sq: usize = lowest(m);
        let ghost out0 = out;
        let ghost m0 = m;
        assert(on(mask, sq as int));
        let t: usize = mirror_sq(sq);
        out = out | bit(t);
        m = drop_lowest(m);
        proof {
            lemma_flip(sq as int);
            assert forall|s: int| #[trigger] on(out, s) == (on_board(s) && on(mask, flip(s)) && !on(m, flip(s))) by {
                assert(on(out, s) == (on(out0, s) || s == t));
                if on_board(s) {
                    lemma_flip(s);
                    assert(on(m, flip(s)) == (on(m0, flip(s)) && flip(s) != sq));
                }
            }
        }
    }
    proof {
        lemma_empty(m);
    }
    out
}

/// Flipping the rows twice gives the mask back.
pub proof fn law_mirror_rows_involution(a: u64, b: u64, c: u64)
    requires
        forall|s: int| #[trigger] on(a, s) ==> on_board(s),
        forall|s: int| #[trigger] on(b, s) == (on_board(s) && on(a, flip(s))),
        forall|s: int| #[trigger] on(c, s) == (on_board(s) && on(b, flip(s))),
    ensures
        c == a,
{
    assert forall|s: int| 0 <= s < 64 implies on(c, s) == on(a, s) by {
        if on_board(s) {
            lemma_flip(s);
        }
    }
    lemma_mask_ext(c, a);
}

/// The piece of the other side.
pub open spec fn swap_cell(c: Cell) -> Cell {
    match c {
        Cell::Empty => Cell::Empty,
        Cell::WhiteBarrel => Cell::BlackBarrel,
        Cell::BlackBarrel => Cell::WhiteBarrel,
        Cell::WhitePail => Cell::BlackPail,
        Cell::BlackPail => Cell::WhitePail,
    }
}

/// The position with colours swapped and rows flipped.
pub open spec fn mirror_state(s: GameState) -> GameState {
    GameState {
        cells: Seq::new(36, |t: int| swap_cell(s.cells[flip(t)])),
        player: s.player.opponent(),
        awaiting_barrel: s.awaiting_barrel,
        white_pail_placed: s.black_pail_placed,
        black_pail_placed: s.white_pail_placed,
        white_off: s.black_off,
        black_off: s.white_off,
        white_scored: s.black_scored,
        black_scored: s.white_scored,
        move_count: s.move_count,
        clock: s.clock,
    }
}

pub open spec fn flip_path(path: Seq<int>) -> Seq<int> {
    Seq::new(path.len(), |i: int| flip(path[i]))
}

/// The action seen from the other side of the board.
pub open spec fn mirror_action(a: Action) -> Action {
    match a {
        Action::Pail { at } => Action::Pail { at: flip(at) },
        Action::Place { to } => Action::Place { to: flip(to) },
        Action::Walk { from, path } => Action::Walk { from: flip(from), path: flip_path(path) },
    }
}

/// The direction with rows flipped: up and down change places.
pub open spec fn flip_dir(d: int) -> int {
    if d == 0 {
        1
    } else if d == 1 {
        0
    } else if d == 4 {
        6
    } else if d == 5 {
        7
    } else if d == 6 {
        4
    } else if d == 7 {
        5
    } else {
        d
    }
}

pub(crate) proof fn lemma_flip_ray(a: int, d: int, k: int)
    requires
        on_board(a),
        0 <= d < 8,
        k == 1 || k == 2,
    ensures
        0 <= flip_dir(d) < 8,
        ray(a, d, k) >= 0 ==> on_board(ray(a, d, k)) && ray(flip(a), flip_dir(d), k) == flip(ray(a, d, k)),
        ray(a, d, k) < 0 ==> ray(flip(a), flip_dir(d), k) < 0,
{
    lemma_flip(a);
    let r = row_of(a) + k * dir_row(d);
    let c = col_of(a) + k * dir_col(d);
    assert(dir_row(flip_dir(d)) == -dir_row(d));
    assert(dir_col(flip_dir(d)) == dir_col(d));
    if 0 <= r < 6 && 0 <= c < 6 {
        assert((6 * r + c) / 6 == r && (6 * r + c) % 6 == c);
    }
}

proof fn lemma_mirror_jump(s: GameState, p: Player, a: int, b: int)
    requires
        s.cells.len() == 36,
        on_board(a),
        jump_ok(s.cells, p, a, b),
    ensures
        on_board(b),
        jump_ok(mirror_state(s).cells, p.opponent(), flip(a), flip(b)),
{
    let d = choose|d: int| 0 <= d < 8 && #[trigger] ray(a, d, 2) == b && hop(s.cells, p, a, d);
    lemma_ray(a, d);
    lemma_flip_ray(a, d, 2);
    lemma_flip_ray(a, d, 1);
    lemma_flip(a);
    lemma_flip(b);
    lemma_flip(ray(a, d, 1));
    assert(ray(flip(a), flip_dir(d), 2) == flip(b));
    assert(hop(mirror_state(s).cells, p.opponent(), flip(a), flip_dir(d)));
}

proof fn lemma_mirror_chain(s: GameState, p: Player, from: int, path: Seq<int>)
    requires
        s.cells.len() == 36,
        on_board(from),
        jump_chain(s.cells, p, from, path),
    ensures
        jump_chain(mirror_state(s).cells, p.opponent(), flip(from), flip_path(path)),
        forall|i: int| 0 <= i < path.len() ==> on_board(#[trigger] path[i]),
{
    assert forall|i: int| 0 <= i < path.len() implies on_board(#[trigger] path[i]) by {
        crate::rules::lemma_chain_squares(s.cells, p, from, path, i);
    }
    reveal(jump_chain);
    let q = flip_path(path);
    assert forall|i: int| 0 <= i < q.len() implies jump_ok(
        mirror_state(s).cells,
        p.opponent(),
        stop(flip(from), q, i),
        #[trigger] q[i],
    ) by {
        assert(on_board(path[i]));
        if i > 0 {
            assert(on_board(path[i - 1]));
        }
        assert(jump_ok(s.cells, p, stop(from, path, i), path[i]));
        lemma_mirror_jump(s, p, stop(from, path, i), path[i]);
    }
    assert forall|i: int, j: int| 0 <= i < q.len() && 0 <= j < q.len() && i != j implies q[i] != q[j] by {
        assert(path[i] != path[j]);
        lemma_flip(path[i]);
        lemma_flip(path[j]);
    }
    if q.contains(flip(from)) {
        let i = choose|i: int| 0 <= i < q.len() && q[i] == flip(from);
        lemma_flip(path[i]);
        lemma_flip(from);
        assert(path.contains(from));
    }
}

/// Mirroring twice gives the position back.
pub proof fn law_mirror_involution(s: GameState)
    requires
        s.cells.len() == 36,
    ensures
        mirror_state(mirror_state(s)) == s,
{
    let m = mirror_state(mirror_state(s));
    assert forall|t: int| 0 <= t < 36 implies m.cells[t] == s.cells[t] by {
        lemma_flip(t);
    }
    assert(m.cells =~= s.cells);
}

/// What is legal for one side is legal, mirrored, for the other.
pub proof fn law_mirror_legal(s: GameState, a: Action)
    requires
        s.cells.len() == 36,
        s.legal(a),
    ensures
        mirror_state(s).legal(mirror_action(a)),
{
    let m = mirror_state(s);
    match a {
        Action::Pail { at } => {
            lemma_flip(at);
        },
        Action::Place { to } => {
            lemma_flip(to);
        },
        Action::Walk { from, path } => {
            lemma_flip(from);
            if path.len() == 1 && s.step_ok(from, path[0]) {
                lemma_flip(path[0]);
                assert(m.step_ok(flip(from), flip_path(path)[0]));
            } else {
                lemma_mirror_chain(s, s.player, from, path);
            }
        },
    }
}

/// Acting and mirroring commute: the mirrored action leads from the mirrored
/// position to the mirror of the position reached.
pub proof fn law_mirror_apply(s: GameState, a: Action)
    requires
        s.cells.len() == 36,
        s.legal(a),
    ensures
        mirror_state(s).apply(mirror_action(a)) == mirror_state(s.apply(a)),
{
    let m = mirror_state(s);
    let x = m.apply(mirror_action(a));
    let y = mirror_state(s.apply(a));
    match a {
        Action::Pail { at } => {
            lemma_flip(at);
            lemma_mirror_update(s, at, pail_of(s.player));
        },
        Action::Place { to } => {
            lemma_flip(to);
            lemma_mirror_update(s, to, barrel_of(s.player));
        },
        Action::Walk { from, path } => {
            let to = path.last();
            if !(path.len() == 1 && s.step_ok(from, path[0])) {
                lemma_mirror_chain(s, s.player, from, path);
            }
            lemma_flip(from);
            lemma_flip(to);
            assert(flip_path(path).last() == flip(to));
            lemma_mirror_update(s, from, Cell::Empty);
            lemma_mirror_update(s.with_cell(from, Cell::Empty), to, barrel_of(s.player));
        },
    }
    assert(x.cells =~= y.cells);
}

proof fn lemma_mirror_update(s: GameState, at: int, c: Cell)
    requires
        s.cells.len() == 36,
        on_board(at),
    ensures
        mirror_state(s.with_cell(at, c)).cells == mirror_state(s).cells.update(flip(at), swap_cell(c)),
{
    lemma_flip(at);
    let x = mirror_state(s.with_cell(at, c)).cells;
    let y = mirror_state(s).cells.update(flip(at), swap_cell(c));
    assert forall|t: int| 0 <= t < 36 implies x[t] == y[t] by {
        lemma_flip(t);
    }
    assert(x =~= y);
}

/// The position with colours swapped and rows flipped. Move counter and clock
/// start afresh and the hash is that of the start of the game.
pub fn color_mirror(bb: &BitBoard) -> (r: BitBoard)
    requires
        bb.inv(),
    ensures
        r.inv(),
        r@ == (GameState { move_count: 0, clock: 0, ..mirror_state(bb@) }),
        r.hash == crate::rules::hash_of(crate::rules::initial_state()),
{
    proof {
        assert forall|s: int| on(bb.white_barrels, s) || on(bb.black_barrels, s) || on(bb.white_pail, s) || on(
            bb.black_pail,
            s,
        ) implies on_board(s) by {
            bb.lemma_square(s);
        }
    }
    let mut out = BitBoard::new();
    out.white_barrels = mirror_rows(bb.black_barrels);
    out.black_barrels = mirror_rows(bb.white_barrels);
    out.white_pail = mirror_rows(bb.black_pail);
    out.black_pail = mirror_rows(bb.white_pail);
    out.white_pail_placed = bb.black_pail_placed;
    out.black_pail_placed = bb.white_pail_placed;
    out.occupied = out.white_barrels | out.black_barrels | out.white_pail | out.black_pail;
    out.white_scored = bb.black_scored;
    out.black_scored = bb.white_scored;
    out.white_barrels_off_board = bb.black_barrels_off_board;
    out.black_barrels_off_board = bb.white_barrels_off_board;
    out.current_player = bb.current_player.opponent();
    out.awaiting_barrel = bb.awaiting_barrel;
    proof {
        let cells = mirror_state(bb@).cells;
        assert forall|s: int| 0 <= s < 36 implies {
            &&& on(out.white_barrels, s) == (cells[s] == Cell::WhiteBarrel)
            &&& on(out.black_barrels, s) == (cells[s] == Cell::BlackBarrel)
            &&& on(out.white_pail, s) == (cells[s] == Cell::WhitePail)
            &&& on(out.black_pail, s) == (cells[s] == Cell::BlackPail)
        } by {
            lemma_flip(s);
            bb.lemma_square(flip(s));
        }
        crate::convert::lemma_collected(out, cells);
    }
    out
}

} // verus!
