//! What the boards tell of rows, pieces and moves.
use vstd::prelude::*;
use crate::bitboard::BitBoard;
use crate::bits::on;
use crate::bitmove::BitMove;
use crate::board::{barrel_squares, cell_number, path_squares, Board, Cell, Move, Player, Position};
use crate::policy::policy_index;
use crate::rules::{barrel_of, goal_row_of, Action};
use crate::squares::{on_board, row_of};
use crate::text::{cell_text, cells_text, decimal, digit_text, signed_decimal};

verus! {

/// White starts on row 5 and goes for row 0, black the other way; both boards say so.
pub proof fn law_sides_face_each_other(a: Board, b: BitBoard, start: usize, goal: usize, other: usize, mask: u64, s: int)
    requires
        0 <= s < 64,
        call_ensures(Board::starting_row, (&a, Player::White), start),
        call_ensures(Board::goal_row, (&a, Player::White), goal),
        call_ensures(BitBoard::goal_row, (&b, Player::Black), other),
        call_ensures(BitBoard::starting_row_mask, (&b, Player::White), mask),
    ensures
        start == 5,
        goal == 0,
        other == 5,
        on(mask, s) == (30 <= s < 36),
        forall|r: usize| call_ensures(Board::starting_row, (&a, Player::Black), r) ==> r == 0,
        forall|r: usize| call_ensures(Board::goal_row, (&a, Player::Black), r) ==> r == 5,
        forall|r: usize| call_ensures(BitBoard::goal_row, (&b, Player::White), r) ==> r == 0,
        forall|m: u64| #[trigger]
            call_ensures(BitBoard::starting_row_mask, (&b, Player::Black), m) ==> on(m, s) == (0 <= s < 6),
{
}

/// A barrel is near its goal on the last two rows of its way.
pub proof fn law_near_the_goal(bb: BitBoard, r: bool)
    requires
        bb.wf(),
        call_ensures(BitBoard::has_barrel_near_goal, (&bb,), r),
    ensures
        bb.current_player == Player::White ==> (r <==> exists|s: int|
            0 <= s < 12 && #[trigger] bb@.cells[s] == Cell::WhiteBarrel),
        bb.current_player == Player::Black ==> (r <==> exists|s: int|
            24 <= s < 36 && #[trigger] bb@.cells[s] == Cell::BlackBarrel),
{
    let p = bb.current_player;
    assert forall|s: int| 0 <= s < 36 implies on(bb.barrels_of(p), s) == (#[trigger] bb@.cells[s] == barrel_of(p)) by {
        bb.lemma_square(s);
        assert(bb@.cells[s] == bb.cell_at(s));
    }
    if r {
        let s = choose|s: int|
            on(bb.barrels_of(p), s) && on_board(s) && -1 <= row_of(s)
                - goal_row_of(p) <= 1;
        assert(bb@.cells[s] == barrel_of(p));
    }
    if p == Player::White && exists|s: int| 0 <= s < 12 && #[trigger] bb@.cells[s] == Cell::WhiteBarrel {
        let s = choose|s: int| 0 <= s < 12 && #[trigger] bb@.cells[s] == Cell::WhiteBarrel;
        assert(on(bb.barrels_of(p), s) && on_board(s) && row_of(s) == s / 6);
        assert(bb.near_goal());
    }
    if p == Player::Black && exists|s: int| 24 <= s < 36 && #[trigger] bb@.cells[s] == Cell::BlackBarrel {
        let s = choose|s: int| 24 <= s < 36 && #[trigger] bb@.cells[s] == Cell::BlackBarrel;
        assert(on(bb.barrels_of(p), s) && on_board(s) && row_of(s) == s / 6);
        assert(bb.near_goal());
    }
}

/// In numbers an empty square is zero, a piece of white is above it and one of black
/// as far below, barrels one and pails two.
pub proof fn law_numbers_show_pieces(a: Board, r: Vec<Vec<i8>>, row: int, col: int)
    requires
        0 <= row < 6,
        0 <= col < 6,
        call_ensures(Board::to_array, (&a,), r),
    ensures
        r@[row]@[col] == 0 <==> a@.cells[6 * row + col] == Cell::Empty,
        r@[row]@[col] == 1 <==> a@.cells[6 * row + col] == Cell::WhiteBarrel,
        r@[row]@[col] == -1 <==> a@.cells[6 * row + col] == Cell::BlackBarrel,
        r@[row]@[col] == 2 <==> a@.cells[6 * row + col] == Cell::WhitePail,
        r@[row]@[col] == -2 <==> a@.cells[6 * row + col] == Cell::BlackPail,
{
    assert(r@[row]@[col] == cell_number(a@.cells[row * 6 + col]));
}

/// The barrels found are those on the board, each once, row by row.
pub proof fn law_barrels_are_found(a: Board, p: Player, r: Vec<Position>, s: int, i: int, j: int)
    requires
        0 <= s < 36,
        0 <= i < j < r@.len(),
        call_ensures(Board::find_barrels, (&a, p), r),
    ensures
        a@.cells[s] == (if p == Player::White {
            Cell::WhiteBarrel
        } else {
            Cell::BlackBarrel
        }) <==> exists|k: int| 0 <= k < r@.len() && 6 * (#[trigger] r@[k]).row + r@[k].col == s,
        6 * r@[i].row + r@[i].col < 6 * r@[j].row + r@[j].col,
{
    let list = barrel_squares(a@.cells, p, 36);
    let squares = path_squares(r@);
    lemma_barrel_squares(a@.cells, p, 36, s, i, j);
    assert(squares.len() == r@.len() && squares[i] == r@[i].sq() && squares[j] == r@[j].sq());
    if a@.cells[s] == barrel_of(p) {
        let k = choose|k: int| 0 <= k < list.len() && list[k] == s;
        assert(squares[k] == r@[k].sq());
        assert(6 * r@[k].row + r@[k].col == s);
    }
    if exists|k: int| 0 <= k < r@.len() && 6 * (#[trigger] r@[k]).row + r@[k].col == s {
        let k = choose|k: int| 0 <= k < r@.len() && 6 * (#[trigger] r@[k]).row + r@[k].col == s;
        assert(squares[k] == s);
        assert(list.contains(s));
    }
}

proof fn lemma_barrel_squares(cells: Seq<Cell>, p: Player, n: nat, s: int, i: int, j: int)
    requires
        0 <= s < 36,
        n <= 36,
    ensures
        barrel_squares(cells, p, n).contains(s) <==> s < n && cells[s] == barrel_of(p),
        forall|k: int| 0 <= k < barrel_squares(cells, p, n).len() ==> 0 <= #[trigger] barrel_squares(cells, p, n)[k] < n,
        0 <= i < j < barrel_squares(cells, p, n).len() ==> barrel_squares(cells, p, n)[i] < barrel_squares(cells, p, n)[j],
    decreases n,
{
    if n > 0 {
        let m = (n - 1) as nat;
        let rest = barrel_squares(cells, p, m);
        let all = barrel_squares(cells, p, n);
        lemma_barrel_squares(cells, p, m, s, i, j);
        if cells[n - 1] == barrel_of(p) {
            assert(all == rest.push(n - 1));
            if rest.contains(s) {
                let k = choose|k: int| 0 <= k < rest.len() && rest[k] == s;
                assert(all[k] == s);
            }
            if s == n - 1 {
                assert(all[rest.len() as int] == s);
            }
            if all.contains(s) && s != n - 1 {
                let k = choose|k: int| 0 <= k < all.len() && all[k] == s;
                assert(rest[k] == s);
            }
        }
    }
}

/// Both kinds of moves number the same actions alike.
pub proof fn law_moves_are_numbered_alike(a: Move, b: BitMove, i: u16, j: u16)
    requires
        a.valid(),
        b.valid(),
        a@ == b@,
        call_ensures(Move::policy_index, (&a,), i),
        call_ensures(policy_index, (&b,), j),
    ensures
        i == j,
{
    match a@ {
        Action::Walk { from, path } => {
            assert(path == path_squares(a.barrel_path@));
        },
        _ => {},
    }
}

/// What a row of digits tells.
pub open spec fn told(s: Seq<char>) -> int
    decreases s.len(),
{
    if s.len() == 0 {
        0
    } else {
        10 * told(s.drop_last()) + (s.last() as int - '0' as int)
    }
}

proof fn lemma_digit(d: int)
    requires
        0 <= d < 10,
    ensures
        digit_text(d).len() == 1,
        digit_text(d)[0] as int == '0' as int + d,
{
    reveal_strlit("0");
    reveal_strlit("1");
    reveal_strlit("2");
    reveal_strlit("3");
    reveal_strlit("4");
    reveal_strlit("5");
    reveal_strlit("6");
    reveal_strlit("7");
    reveal_strlit("8");
    reveal_strlit("9");
}

/// A number's digits tell it, the last for the ones, and no number but zero begins
/// with a zero.
pub proof fn law_digits_tell_the_number(n: int)
    requires
        n >= 0,
    ensures
        told(decimal(n)) == n,
        decimal(n).len() > 0,
        n > 0 ==> decimal(n)[0] != '0',
    decreases n,
{
    if n < 10 {
        lemma_digit(n);
        assert(decimal(n).drop_last() =~= Seq::empty());
        assert(told(Seq::<char>::empty()) == 0);
    } else {
        law_digits_tell_the_number(n / 10);
        lemma_digit(n % 10);
        let s = decimal(n / 10);
        assert(decimal(n).drop_last() =~= s);
        assert(decimal(n)[0] == s[0]);
    }
}

/// A negative number is told by a minus and the digits of its size.
pub proof fn law_signs_tell_negatives(n: int)
    ensures
        n >= 0 ==> told(signed_decimal(n)) == n,
        n < 0 ==> signed_decimal(n)[0] == '-' && told(signed_decimal(n).skip(1)) == -n,
{
    reveal_strlit("-");
    if n >= 0 {
        law_digits_tell_the_number(n);
    } else {
        law_digits_tell_the_number(-n);
        assert(signed_decimal(n).skip(1) =~= decimal(-n));
    }
}

/// A row is drawn square by square, a letter and a space each: W and B for barrels, w
/// and b for pails, a dot for nothing.
pub proof fn law_rows_are_drawn(row: Seq<Cell>, n: int, i: int)
    requires
        0 <= i < n,
    ensures
        cells_text(row, n).len() == 2 * n,
        cells_text(row, n)[2 * i + 1] == ' ',
        cells_text(row, n)[2 * i] == match row[i] {
            Cell::WhiteBarrel => 'W',
            Cell::BlackBarrel => 'B',
            Cell::WhitePail => 'w',
            Cell::BlackPail => 'b',
            Cell::Empty => '.',
        },
    decreases n,
{
    reveal_strlit("W ");
    reveal_strlit("B ");
    reveal_strlit("w ");
    reveal_strlit("b ");
    reveal_strlit(". ");
    if n > 1 {
        law_rows_are_drawn(
            row,
            n - 1,
            if i < n - 1 {
                i
            } else {
                0
            },
        );
    } else {
        assert(cells_text(row, 0).len() == 0);
    }
    assert(cells_text(row, n) == cells_text(row, n - 1) + cell_text(row[n - 1]));
    assert(cells_text(row, n - 1).len() == 2 * (n - 1));
    assert(cell_text(row[n - 1]).len() == 2);
}

} // verus!
