//! The rules in rows and columns: which moves the generator lists, and what they
//! do to the board.
use vstd::prelude::*;
use crate::bitboard::BitBoard;
use crate::bitmove::BitMove;
use crate::board::{Cell, Player};
use crate::eval_laws::over;
use crate::movegen::has_action;
use crate::rules::{barrels_on, cells_hash, hash_of, hop, jump_chain, jump_ok, stop, Action, GameState};
use crate::squares::ray;
use crate::zobrist::{
    law_off_board_keys_differ, law_piece_keys_differ, law_the_side_has_a_key, off_board_key, piece_key, side_key,
};

verus! {

/// The cell that holds the side's barrels.
pub open spec fn barrel(white: bool) -> Cell {
    if white {
        Cell::WhiteBarrel
    } else {
        Cell::BlackBarrel
    }
}

/// The cell that holds the side's pail.
pub open spec fn pail(white: bool) -> Cell {
    if white {
        Cell::WhitePail
    } else {
        Cell::BlackPail
    }
}

/// One square touches the other.
pub open spec fn touches(a: int, b: int) -> bool {
    a != b && -1 <= a / 6 - b / 6 <= 1 && -1 <= a % 6 - b % 6 <= 1
}

/// A jump two squares on in a row, a column or a diagonal, over a barrel of
/// either side or the own pail, onto an empty square.
pub open spec fn jumps(cells: Seq<Cell>, white: bool, a: int, b: int) -> bool {
    let rows = b / 6 - a / 6;
    let cols = b % 6 - a % 6;
    let middle = cells[(a + b) / 2];
    &&& rows == -2 || rows == 0 || rows == 2
    &&& cols == -2 || cols == 0 || cols == 2
    &&& a != b
    &&& middle == Cell::WhiteBarrel || middle == Cell::BlackBarrel || middle == pail(white)
    &&& cells[b] == Cell::Empty
}

proof fn lemma_ray_square(a: int, d: int, k: int)
    requires
        0 <= a < 36,
        0 <= d < 8,
        k == 1 || k == 2,
    ensures
        ray(a, d, k) >= 0 ==> {
            &&& 0 <= ray(a, d, k) < 36
            &&& ray(a, d, k) / 6 == a / 6 + k * crate::squares::dir_row(d)
            &&& ray(a, d, k) % 6 == a % 6 + k * crate::squares::dir_col(d)
        },
        ray(a, d, 2) >= 0 ==> ray(a, d, 1) >= 0 && ray(a, d, 1) == (a + ray(a, d, 2)) / 2,
{
    let r = a / 6 + k * crate::squares::dir_row(d);
    let c = a % 6 + k * crate::squares::dir_col(d);
    if 0 <= r < 6 && 0 <= c < 6 {
        assert((6 * r + c) / 6 == r && (6 * r + c) % 6 == c);
    }
}

/// One jump of the rules is one of rows and columns.
#[verifier::spinoff_prover]
proof fn lemma_jump(cells: Seq<Cell>, white: bool, a: int, b: int)
    requires
        cells.len() == 36,
        0 <= a < 36,
    ensures
        jump_ok(
            cells,
            if white {
                Player::White
            } else {
                Player::Black
            },
            a,
            b,
        ) <==> 0 <= b < 36 && jumps(cells, white, a, b),
{
    let p = if white {
        Player::White
    } else {
        Player::Black
    };
    if jump_ok(cells, p, a, b) {
        let d = choose|d: int| 0 <= d < 8 && #[trigger] ray(a, d, 2) == b && hop(cells, p, a, d);
        lemma_ray_square(a, d, 2);
        lemma_ray_square(a, d, 1);
    }
    if 0 <= b < 36 && jumps(cells, white, a, b) {
        let rows = b / 6 - a / 6;
        let cols = b % 6 - a % 6;
        let d: int = if rows == -2 {
            if cols == 0 {
                0
            } else if cols == -2 {
                4
            } else {
                5
            }
        } else if rows == 2 {
            if cols == 0 {
                1
            } else if cols == -2 {
                6
            } else {
                7
            }
        } else if cols == -2 {
            2
        } else {
            3
        };
        assert(ray(a, d, 2) == b);
        lemma_ray_square(a, d, 2);
        assert(hop(cells, p, a, d));
    }
}

/// What is listed for a board is what is legal.
proof fn lemma_generated(bb: BitBoard, r: Vec<BitMove>, a: Action)
    requires
        call_ensures(BitBoard::generate_moves, (&bb,), r),
    ensures
        (exists|i: int| 0 <= i < r@.len() && (#[trigger] r@[i])@ == a) <==> bb@.legal(a),
{
    let kind = |a: Action| bb@.legal(a);
    if bb@.legal(a) {
        assert(kind(a));
        assert(has_action(r@, 0, a));
        let i = choose|i: int| 0 <= i < r@.len() && (#[trigger] r@[i])@ == a;
        assert(r@[i]@ == a);
    }
    if exists|i: int| 0 <= i < r@.len() && (#[trigger] r@[i])@ == a {
        let i = choose|i: int| 0 <= i < r@.len() && (#[trigger] r@[i])@ == a;
        assert(kind(r@[i]@));
    }
}

/// The generator lists a walk of one square exactly if a barrel of the side to
/// move stands on the one square, the other is empty, and either they touch or a
/// jump leads there.
#[verifier::spinoff_prover]
pub proof fn law_single_walks(bb: BitBoard, r: Vec<BitMove>, from: int, to: int)
    requires
        call_ensures(BitBoard::generate_moves, (&bb,), r),
        0 <= from < 36,
        0 <= to < 36,
    ensures
        ({
            let white = bb.current_player == Player::White;
            let cells = bb@.cells;
            (exists|i: int| 0 <= i < r@.len() && (#[trigger] r@[i])@ == Action::Walk { from, path: seq![to] }) <==> cells[from]
                == barrel(white) && cells[to] == Cell::Empty && (touches(from, to) || jumps(cells, white, from, to))
        }),
{
    let white = bb.current_player == Player::White;
    let path = seq![to];
    lemma_generated(bb, r, Action::Walk { from, path });
    lemma_jump(bb@.cells, white, from, to);
    let p = bb.current_player;
    if jump_chain(bb@.cells, p, from, path) {
        reveal(jump_chain);
        assert(jump_ok(bb@.cells, p, stop(from, path, 0), path[0]));
    }
    if jumps(bb@.cells, white, from, to) {
        assert(jump_chain(bb@.cells, p, from, path)) by {
            reveal(jump_chain);
            assert forall|i: int| 0 <= i < path.len() implies jump_ok(
                bb@.cells,
                p,
                stop(from, path, i),
                #[trigger] path[i],
            ) by {}
        }
    }
}

/// The generator lists a longer walk exactly if a barrel of the side to move
/// stands where it begins, every part of it is a jump, and it never comes back to
/// a square it has stood on.
#[verifier::spinoff_prover]
pub proof fn law_long_walks(bb: BitBoard, r: Vec<BitMove>, from: int, path: Seq<int>)
    requires
        call_ensures(BitBoard::generate_moves, (&bb,), r),
        0 <= from < 36,
        path.len() >= 2,
        forall|i: int| 0 <= i < path.len() ==> 0 <= #[trigger] path[i] < 36,
    ensures
        ({
            let white = bb.current_player == Player::White;
            let cells = bb@.cells;
            (exists|i: int| 0 <= i < r@.len() && (#[trigger] r@[i])@ == Action::Walk { from, path }) <==> {
                &&& cells[from] == barrel(white)
                &&& jumps(cells, white, from, path[0])
                &&& forall|i: int| 0 < i < path.len() ==> jumps(cells, white, path[i - 1], #[trigger] path[i])
                &&& forall|i: int, j: int| 0 <= i < j < path.len() ==> path[i] != path[j]
                &&& forall|i: int| 0 <= i < path.len() ==> path[i] != from
            }
        }),
{
    let white = bb.current_player == Player::White;
    let p = bb.current_player;
    let cells = bb@.cells;
    lemma_generated(bb, r, Action::Walk { from, path });
    reveal(jump_chain);
    if jump_chain(cells, p, from, path) {
        assert forall|i: int| 0 < i < path.len() implies jumps(cells, white, path[i - 1], #[trigger] path[i]) by {
            assert(jump_ok(cells, p, stop(from, path, i), path[i]));
            lemma_jump(cells, white, path[i - 1], path[i]);
        }
        assert(jump_ok(cells, p, stop(from, path, 0), path[0]));
        lemma_jump(cells, white, from, path[0]);
        assert forall|i: int| 0 <= i < path.len() implies path[i] != from by {
            assert(path.contains(path[i]));
        }
    }
    if jumps(cells, white, from, path[0]) && (forall|i: int|
        0 < i < path.len() ==> jumps(cells, white, path[i - 1], #[trigger] path[i])) && (forall|i: int, j: int|
        0 <= i < j < path.len() ==> path[i] != path[j]) && (forall|i: int| 0 <= i < path.len() ==> path[i] != from) {
        assert forall|i: int| 0 <= i < path.len() implies jump_ok(cells, p, stop(from, path, i), #[trigger] path[i]) by {
            if i == 0 {
                lemma_jump(cells, white, from, path[0]);
            } else {
                assert(jumps(cells, white, path[i - 1], path[i]));
                lemma_jump(cells, white, path[i - 1], path[i]);
            }
        }
        assert(path.no_duplicates()) by {
            assert forall|i: int, j: int| 0 <= i < path.len() && 0 <= j < path.len() && i != j implies path[i] != path[j] by {
                if i > j {
                    assert(path[j] != path[i]);
                }
            }
        }
    }
}

/// The generator lists a barrel placement exactly on the empty squares of the own
/// back row, row 5 for white and row 0 for black, while there is a barrel in hand;
/// and a pail placement on every empty square, until the pail is placed and unless
/// a barrel move is owed.
pub proof fn law_placements(bb: BitBoard, r: Vec<BitMove>, s: int)
    requires
        call_ensures(BitBoard::generate_moves, (&bb,), r),
    ensures
        (exists|i: int| 0 <= i < r@.len() && (#[trigger] r@[i])@ == Action::Place { to: s }) <==> if bb.current_player
            == Player::White {
            bb.white_barrels_off_board > 0 && 30 <= s < 36 && bb@.cells[s] == Cell::Empty
        } else {
            bb.black_barrels_off_board > 0 && 0 <= s < 6 && bb@.cells[s] == Cell::Empty
        },
        (exists|i: int| 0 <= i < r@.len() && (#[trigger] r@[i])@ == Action::Pail { at: s }) <==> 0 <= s < 36 && bb@.cells[s]
            == Cell::Empty && !bb.awaiting_barrel && if bb.current_player == Player::White {
            !bb.white_pail_placed
        } else {
            !bb.black_pail_placed
        },
{
    lemma_generated(bb, r, Action::Place { to: s });
    lemma_generated(bb, r, Action::Pail { at: s });
}

/// A walk empties the square it begins on. On row 0 a white barrel is home, on row
/// 5 a black one: it leaves the board and counts. Anywhere else the barrel stands
/// where the walk ends. Nothing else on the board changes, and the other side is to
/// move.
pub proof fn law_walks_move_one_barrel(s: GameState, from: int, path: Seq<int>)
    requires
        s.cells.len() == 36,
        0 <= from < 36,
        path.len() > 0,
        0 <= path.last() < 36,
        path.last() != from,
    ensures
        ({
            let t = s.apply(Action::Walk { from, path });
            let to = path.last();
            let white = s.player == Player::White;
            let home = if white {
                to / 6 == 0
            } else {
                to / 6 == 5
            };
            &&& t.cells.len() == 36
            &&& t.cells[from] == Cell::Empty
            &&& t.cells[to] == if home {
                s.cells[to]
            } else {
                barrel(white)
            }
            &&& forall|q: int| 0 <= q < 36 && q != from && q != to ==> #[trigger] t.cells[q] == s.cells[q]
            &&& t.white_scored == s.white_scored + if white && home {
                1int
            } else {
                0
            }
            &&& t.black_scored == s.black_scored + if !white && home {
                1int
            } else {
                0
            }
            &&& t.white_off == s.white_off && t.black_off == s.black_off
            &&& t.player != s.player
            &&& t.clock == if home {
                0
            } else {
                s.clock + 1
            }
            &&& t.move_count == s.move_count + 1
        }),
{
}

/// A barrel placement takes a barrel from the hand of the side to move and puts it
/// on the square; a pail placement puts the pail there, and the same side is still
/// to move.
pub proof fn law_placements_put_one_piece(s: GameState, q: int, a: Action)
    requires
        s.cells.len() == 36,
        0 <= q < 36,
        s.legal(a),
        a == (Action::Place { to: q }) || a == (Action::Pail { at: q }),
    ensures
        ({
            let t = s.apply(a);
            let white = s.player == Player::White;
            &&& t.cells == s.cells.update(
                q,
                if a is Pail {
                    pail(white)
                } else {
                    barrel(white)
                },
            )
            &&& t.white_off == s.white_off - if a is Place && white {
                1int
            } else {
                0
            }
            &&& t.black_off == s.black_off - if a is Place && !white {
                1int
            } else {
                0
            }
            &&& t.white_scored == s.white_scored && t.black_scored == s.black_scored
            &&& (t.player == s.player) == (a is Pail)
            &&& a is Pail ==> (if white {
                t.white_pail_placed && t.black_pail_placed == s.black_pail_placed
            } else {
                t.black_pail_placed && t.white_pail_placed == s.white_pail_placed
            })
            &&& t.clock == 0
        }),
{
}

/// Of a position with four barrels a side, a side has won exactly if none of its
/// barrels is on the board or in hand; white is asked first. Both boards agree.
pub proof fn law_winners_have_no_barrels_left(bb: BitBoard, w: Option<Player>)
    requires
        bb.wf(),
        call_ensures(BitBoard::check_winner, (&bb,), w),
    ensures
        w == Some(Player::White) <==> bb.white_barrels_off_board == 0 && over(
            |q: int|
                if bb@.cells[q] == Cell::WhiteBarrel {
                    1
                } else {
                    0
                },
            36,
        ) == 0,
        w == Some(Player::Black) <==> w != Some(Player::White) && bb.black_barrels_off_board == 0 && over(
            |q: int|
                if bb@.cells[q] == Cell::BlackBarrel {
                    1
                } else {
                    0
                },
            36,
        ) == 0,
{
    lemma_count(
        bb@.cells,
        Player::White,
        |q: int|
            if bb@.cells[q] == Cell::WhiteBarrel {
                1
            } else {
                0
            },
        36,
    );
    lemma_count(
        bb@.cells,
        Player::Black,
        |q: int|
            if bb@.cells[q] == Cell::BlackBarrel {
                1
            } else {
                0
            },
        36,
    );
}

proof fn lemma_count(cells: Seq<Cell>, p: Player, f: spec_fn(int) -> int, n: nat)
    requires
        forall|q: int|
            0 <= q < n ==> #[trigger] f(q) == if cells[q] == barrel(p == Player::White) {
                1int
            } else {
                0
            },
    ensures
        over(f, n) == barrels_on(cells, p, n),
    decreases n,
{
    if n > 0 {
        lemma_count(cells, p, f, (n - 1) as nat);
        assert(f(n - 1) == f(n - 1));
    }
}

/// Positions that differ in the content of one square only, in the side to move only
/// or in the barrels that one side has in hand only have different hashes; the
/// counters of the past are no part of them.
#[verifier::spinoff_prover]
pub proof fn law_hashes_tell_positions_apart(s: GameState, q: int, c: Cell, p: Player, n: int, moves: int, clock: int)
    requires
        s.cells.len() == 36,
        0 <= q < 36,
        0 <= s.white_off < 5,
        0 <= s.black_off < 5,
        0 <= n < 5,
    ensures
        hash_of(GameState { cells: s.cells.update(q, c), ..s }) == hash_of(s) <==> c == s.cells[q],
        hash_of(GameState { player: p, ..s }) == hash_of(s) <==> p == s.player,
        hash_of(GameState { white_off: n, ..s }) == hash_of(s) <==> n == s.white_off,
        hash_of(GameState { black_off: n, ..s }) == hash_of(s) <==> n == s.black_off,
        hash_of(GameState { move_count: moves, clock, ..s }) == hash_of(s),
{
    let x = cells_hash(s.cells, 36);
    let y = cells_hash(s.cells.update(q, c), 36);
    let side = if s.player == Player::Black {
        side_key()
    } else {
        0
    };
    let w = off_board_key(0, s.white_off);
    let b = off_board_key(1, s.black_off);
    if c == s.cells[q] {
        assert(s.cells.update(q, c) =~= s.cells);
    } else {
        lemma_cells_differ(s.cells, q, c, 36);
        lemma_xor_differs(x, y, side);
        lemma_xor_differs(x ^ side, y ^ side, w);
        lemma_xor_differs(x ^ side ^ w, y ^ side ^ w, b);
    }
    if p != s.player {
        law_the_side_has_a_key();
        let other = if p == Player::Black {
            side_key()
        } else {
            0
        };
        lemma_xor_differs(side, other, x);
        lemma_xor_differs(x ^ side, x ^ other, w);
        lemma_xor_differs(x ^ side ^ w, x ^ other ^ w, b);
    } else {
        assert((GameState { player: p, ..s }) == s);
    }
    if n != s.white_off {
        law_off_board_keys_differ(0, n, s.white_off);
        let k = off_board_key(0, n);
        lemma_xor_differs(w, k, x ^ side);
        lemma_xor_differs(x ^ side ^ w, x ^ side ^ k, b);
    } else {
        assert((GameState { white_off: n, ..s }) == s);
    }
    if n != s.black_off {
        law_off_board_keys_differ(1, n, s.black_off);
        let k = off_board_key(1, n);
        lemma_xor_differs(b, k, x ^ side ^ w);
    } else {
        assert((GameState { black_off: n, ..s }) == s);
    }
}

proof fn lemma_xor_differs(x: u64, y: u64, k: u64)
    by (bit_vector)
    requires
        x != y,
    ensures
        x ^ k != y ^ k,
        k ^ x != k ^ y,
{
}

proof fn lemma_cells_differ(cells: Seq<Cell>, q: int, c: Cell, n: nat)
    requires
        cells.len() == 36,
        0 <= q < 36,
        n <= 36,
        c != cells[q],
    ensures
        n <= q ==> cells_hash(cells.update(q, c), n) == cells_hash(cells, n),
        n > q ==> cells_hash(cells.update(q, c), n) != cells_hash(cells, n),
    decreases n,
{
    if n > 0 {
        lemma_cells_differ(cells, q, c, (n - 1) as nat);
        let m = (n - 1) as nat;
        if q == m {
            law_piece_keys_differ(q, c, cells[q]);
            lemma_xor_differs(
                piece_key(q, c),
                piece_key(q, cells[q]),
                cells_hash(cells, m),
            );
        } else if q < m {
            lemma_xor_differs(
                cells_hash(cells.update(q, c), m),
                cells_hash(cells, m),
                piece_key(m as int, cells[m as int]),
            );
        }
    }
}

} // verus!
