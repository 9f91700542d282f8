//! Boards, moves and results as text.
use vstd::prelude::*;
use vstd::string::StringExecFns;
use crate::board::{Board, Cell, Move, Player, Position};
use crate::session::SearchResult;

verus! {

/// A digit.
pub open spec fn digit_text(d: int) -> Seq<char> {
    if d == 0 {
        "0"@
    } else if d == 1 {
        "1"@
    } else if d == 2 {
        "2"@
    } else if d == 3 {
        "3"@
    } else if d == 4 {
        "4"@
    } else if d == 5 {
        "5"@
    } else if d == 6 {
        "6"@
    } else if d == 7 {
        "7"@
    } else if d == 8 {
        "8"@
    } else {
        "9"@
    }
}

/// A number in decimal.
pub open spec fn decimal(n: int) -> Seq<char>
    decreases n,
{
    if n < 10 {
        digit_text(n)
    } else {
        decimal(n / 10) + digit_text(n % 10)
    }
}

/// A number in decimal, with a sign if it is negative.
pub open spec fn signed_decimal(n: int) -> Seq<char> {
    if n < 0 {
        "-"@ + decimal(-n)
    } else {
        decimal(n)
    }
}

fn digit(d: u64) -> (r: &'static str)
    requires
        d < 10,
    ensures
        r@ == digit_text(d as int),
{
    if d == 0 {
        "0"
    } else if d == 1 {
        "1"
    } else if d == 2 {
        "2"
    } else if d == 3 {
        "3"
    } else if d == 4 {
        "4"
    } else if d == 5 {
        "5"
    } else if d == 6 {
        "6"
    } else if d == 7 {
        "7"
    } else if d == 8 {
        "8"
    } else {
        "9"
    }
}

fn push_decimal(s: &mut String, n: u64)
    ensures
        final(s)@ == old(s)@ + decimal(n as int),
    decreases n,
{
    let ghost before = s@;
    if n >= 10 {
        push_decimal(s, n / 10);
    }
    s.append(digit(n % 10));
    proof {
        assert(s@ =~= before + decimal(n as int));
    }
}

fn push_signed(s: &mut String, n: i32)
    ensures
        final(s)@ == old(s)@ + signed_decimal(n as int),
{
    let ghost before = s@;
    if n < 0 {
        s.append("-");
        push_decimal(s, (-(n as i64)) as u64);
    } else {
        push_decimal(s, n as u64);
    }
    proof {
        assert(s@ =~= before + signed_decimal(n as int));
    }
}

impl Player {
    /// The player's name.
    pub fn name(&self) -> (r: &'static str)
        ensures
            r@ == match self {
                Player::White => "White"@,
                Player::Black => "Black"@,
            },
    {
        match self {
            Player::White => "White",
            Player::Black => "Black",
        }
    }

    pub fn repr(&self) -> (r: &'static str)
        ensures
            r@ == match self {
                Player::White => "Player.White"@,
                Player::Black => "Player.Black"@,
            },
    {
        match self {
            Player::White => "Player.White",
            Player::Black => "Player.Black",
        }
    }
}

/// The letter of a cell, with a space behind it.
pub open spec fn cell_text(c: Cell) -> Seq<char> {
    match c {
        Cell::Empty => ". "@,
        Cell::WhiteBarrel => "W "@,
        Cell::BlackBarrel => "B "@,
        Cell::WhitePail => "w "@,
        Cell::BlackPail => "b "@,
    }
}

/// The first `n` cells of a row.
pub open spec fn cells_text(row: Seq<Cell>, n: int) -> Seq<char>
    decreases n,
{
    if n <= 0 {
        Seq::empty()
    } else {
        cells_text(row, n - 1) + cell_text(row[n - 1])
    }
}

/// The first `n` rows.
pub open spec fn rows_text(b: Board, n: int) -> Seq<char>
    decreases n,
{
    if n <= 0 {
        Seq::empty()
    } else {
        rows_text(b, n - 1) + (digit_text(n - 1) + "| "@ + cells_text(b.cells@[n - 1]@, 6) + "|\n"@)
    }
}

/// The board with its rows numbered, the side to move and the turns played.
pub open spec fn board_text(b: Board) -> Seq<char> {
    "  0 1 2 3 4 5 6 7\n"@ + " +-----------------+\n"@ + rows_text(b, 6) + " +-----------------+\n"@ + "Turn: "@
        + (match b.current_player {
        Player::White => "White"@,
        Player::Black => "Black"@,
    }) + " | Move: "@ + decimal(b.move_count as int) + "\n"@
}

fn cell_letter(c: Cell) -> (r: &'static str)
    ensures
        r@ == cell_text(c),
{
    match c {
        Cell::Empty => ". ",
        Cell::WhiteBarrel => "W ",
        Cell::BlackBarrel => "B ",
        Cell::WhitePail => "w ",
        Cell::BlackPail => "b ",
    }
}

impl Board {
    fn push_row(&self, s: &mut String, row: usize)
        requires
            row < 6,
        ensures
            final(s)@ == old(s)@ + (digit_text(row as int) + "| "@ + cells_text(self.cells@[row as int]@, 6) + "|\n"@),
    {
        let ghost before = s@;
        s.append(digit(row as u64));
        s.append("| ");
        let ghost head = s@;
        let mut col: usize = 0;
        while col < 6
            invariant
                col <= 6,
                row < 6,
                s@ == head + cells_text(self.cells@[row as int]@, col as int),
            decreases 6 - col,
        {
            let ghost mid = s@;
            s.append(cell_letter(self.cells[row][col]));
            col = col + 1;
            proof {
                assert(s@ =~= head + cells_text(self.cells@[row as int]@, col as int));
            }
        }
        s.append("|\n");
        proof {
            assert(s@ =~= before + (digit_text(row as int) + "| "@ + cells_text(self.cells@[row as int]@, 6) + "|\n"@));
        }
    }

    /// The board as text.
    pub fn display(&self) -> (r: String)
        ensures
            r@ == board_text(*self),
    {
        let mut s = String::new();
        s.append("  0 1 2 3 4 5 6 7\n");
        s.append(" +-----------------+\n");
        let ghost head = s@;
        let mut row: usize = 0;
        while row < 6
            invariant
                row <= 6,
                s@ == head + rows_text(*self, row as int),
            decreases 6 - row,
        {
            self.push_row(&mut s, row);
            row = row + 1;
            proof {
                assert(s@ =~= head + rows_text(*self, row as int));
            }
        }
        s.append(" +-----------------+\n");
        s.append("Turn: ");
        s.append(self.current_player.name());
        s.append(" | Move: ");
        push_decimal(&mut s, self.move_count as u64);
        s.append("\n");
        proof {
            assert(s@ =~= board_text(*self));
        }
        s
    }
}

/// Coordinates between brackets, with a separator.
pub open spec fn pair_text(p: Position, sep: Seq<char>) -> Seq<char> {
    "("@ + signed_decimal(p.row as int) + sep + signed_decimal(p.col as int) + ")"@
}

fn push_pair(s: &mut String, p: &Position, sep: &str)
    ensures
        final(s)@ == old(s)@ + pair_text(*p, sep@),
{
    let ghost before = s@;
    s.append("(");
    push_signed(s, p.row as i32);
    s.append(sep);
    push_signed(s, p.col as i32);
    s.append(")");
    proof {
        assert(s@ =~= before + pair_text(*p, sep@));
    }
}

impl Position {
    /// The position as text.
    pub fn repr(&self) -> (r: String)
        ensures
            r@ == "Position"@ + pair_text(*self, ", "@),
    {
        let mut s = String::new();
        s.append("Position");
        push_pair(&mut s, self, ", ");
        proof {
            assert(s@ =~= "Position"@ + pair_text(*self, ", "@));
        }
        s
    }
}

/// The pail's part of a move.
pub open spec fn pail_text(m: Move) -> Seq<char> {
    match m.place_pail {
        Some(p) => "+pail"@ + pair_text(p, ","@),
        None => Seq::empty(),
    }
}

/// The barrel's part of a move.
pub open spec fn barrel_text(m: Move) -> Seq<char> {
    if m.is_pail_only {
        Seq::empty()
    } else if m.is_barrel_placement {
        "place_barrel"@ + pair_text(m.barrel_to, ","@)
    } else {
        match m.barrel_from {
            Some(f) => "move"@ + pair_text(f, ","@) + "→"@ + pair_text(m.barrel_to, ","@),
            None => Seq::empty(),
        }
    }
}

impl Move {
    /// The move as text.
    pub fn repr(&self) -> (r: String)
        ensures
            r@ == "Move("@ + pail_text(*self) + barrel_text(*self) + ")"@,
    {
        let mut s = String::new();
        s.append("Move(");
        if let Some(p) = &self.place_pail {
            s.append("+pail");
            push_pair(&mut s, p, ",");
        }
        let ghost head = s@;
        proof {
            assert(head =~= "Move("@ + pail_text(*self));
        }
        if self.is_pail_only {
        } else if self.is_barrel_placement {
            s.append("place_barrel");
            push_pair(&mut s, &self.barrel_to, ",");
        } else if let Some(f) = &self.barrel_from {
            s.append("move");
            push_pair(&mut s, f, ",");
            s.append("→");
            push_pair(&mut s, &self.barrel_to, ",");
        }
        proof {
            assert(s@ =~= head + barrel_text(*self));
        }
        s.append(")");
        s
    }
}

impl SearchResult {
    /// The result as text.
    pub fn repr(&self) -> (r: String)
        ensures
            r@ == "SearchResult(score="@ + signed_decimal(self.score as int) + ", depth="@ + decimal(self.depth as int)
                + ", nodes="@ + decimal(self.nodes_searched as int) + ", cutoffs="@ + decimal(self.cutoffs as int)
                + ", tt_hits="@ + decimal(self.tt_hits as int) + ")"@,
    {
        let mut s = String::new();
        s.append("SearchResult(score=");
        push_signed(&mut s, self.score);
        s.append(", depth=");
        push_decimal(&mut s, self.depth as u64);
        s.append(", nodes=");
        push_decimal(&mut s, self.nodes_searched);
        s.append(", cutoffs=");
        push_decimal(&mut s, self.cutoffs);
        s.append(", tt_hits=");
        push_decimal(&mut s, self.tt_hits);
        s.append(")");
        proof {
            assert(s@ =~= "SearchResult(score="@ + signed_decimal(self.score as int) + ", depth="@ + decimal(
                self.depth as int,
            ) + ", nodes="@ + decimal(self.nodes_searched as int) + ", cutoffs="@ + decimal(self.cutoffs as int)
                + ", tt_hits="@ + decimal(self.tt_hits as int) + ")"@);
        }
        s
    }
}

} // verus!
