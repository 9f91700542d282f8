//! What each weight of the handcrafted evaluation counts. Every law compares two
//! evaluations and says in squares and pieces how they differ.
use vstd::prelude::*;
use crate::bitboard::BitBoard;
use crate::board::{Cell, Player};
use crate::heuristic::{
    at_dist_sum, blocking_sum, heuristic_of, is_passed, is_trapped, jumps_of, jumps_sum, lemma_race_pair_unique,
    mobility_of, mobility_sum, passed_sum, progress_sum, race_pair, races_of, trapped_sum, EvalWeights,
};
use crate::race::RaceTable;

verus! {

/// A sum over the first `n` squares of the board.
pub open spec fn over(f: spec_fn(int) -> int, n: nat) -> int
    decreases n,
{
    if n == 0 {
        0
    } else {
        over(f, (n - 1) as nat) + f(n - 1)
    }
}

/// One for white's barrels on squares that the test picks, minus one for black's.
pub open spec fn lead(cells: Seq<Cell>, white: spec_fn(int) -> int, black: spec_fn(int) -> int) -> int {
    over(
        |s: int|
            if cells[s] == Cell::WhiteBarrel {
                white(s)
            } else if cells[s] == Cell::BlackBarrel {
                -black(s)
            } else {
                0
            },
        36,
    )
}

/// One if the square of this row and column is on the board and empty.
pub open spec fn gap(cells: Seq<Cell>, row: int, col: int) -> int {
    if 0 <= row < 6 && 0 <= col < 6 && cells[6 * row + col] == Cell::Empty {
        1
    } else {
        0
    }
}

/// The empty squares of the next row that touch the square; `up` is -1 towards
/// row 0.
pub open spec fn gaps_ahead(cells: Seq<Cell>, s: int, up: int) -> int {
    gap(cells, s / 6 + up, s % 6 - 1) + gap(cells, s / 6 + up, s % 6) + gap(cells, s / 6 + up, s % 6 + 1)
}

/// The empty squares around the square.
pub open spec fn gaps_around(cells: Seq<Cell>, s: int) -> int {
    gaps_ahead(cells, s, -1) + gaps_ahead(cells, s, 1) + gap(cells, s / 6, s % 6 - 1) + gap(cells, s / 6, s % 6 + 1)
}

/// One if a barrel jumps from the square two rows on, over a barrel or the
/// pail of its side.
pub open spec fn leap(cells: Seq<Cell>, s: int, up: int, side: int, pail: Cell) -> int {
    let row = s / 6;
    let col = s % 6;
    if 0 <= row + 2 * up < 6 && 0 <= col + 2 * side < 6 && cells[6 * (row + 2 * up) + col + 2 * side] == Cell::Empty && {
        let over = cells[6 * (row + up) + col + side];
        over == Cell::WhiteBarrel || over == Cell::BlackBarrel || over == pail
    } {
        1
    } else {
        0
    }
}

pub open spec fn leaps_ahead(cells: Seq<Cell>, s: int, up: int, pail: Cell) -> int {
    leap(cells, s, up, -1, pail) + leap(cells, s, up, 0, pail) + leap(cells, s, up, 1, pail)
}

/// No piece of the other side, barrel or pail, stands in the column on the way to
/// the goal, and there is a way left.
pub open spec fn way_is_clear(cells: Seq<Cell>, s: int, white: bool) -> bool {
    &&& if white {
        s / 6 > 0
    } else {
        s / 6 < 5
    }
    &&& forall|row: int|
        0 <= row < 6 && (if white {
            row < s / 6
        } else {
            row > s / 6
        }) ==> {
            let c = #[trigger] cells[6 * row + s % 6];
            if white {
                c != Cell::BlackBarrel && c != Cell::BlackPail
            } else {
                c != Cell::WhiteBarrel && c != Cell::WhitePail
            }
        }
}

/// What pails block depends on the weights of blocking only.
proof fn lemma_blocking_same(w: EvalWeights, v: EvalWeights, cells: Seq<Cell>, n: nat)
    requires
        w.blocking == v.blocking,
        w.adj_blocking == v.adj_blocking,
    ensures
        forall|p: Player, q: int| blocking_sum(w, cells, p, q, n) == #[trigger] blocking_sum(v, cells, p, q, n),
    decreases n,
{
    if n > 0 {
        lemma_blocking_same(w, v, cells, (n - 1) as nat);
        assert forall|p: Player, q: int| blocking_sum(w, cells, p, q, n) == #[trigger] blocking_sum(v, cells, p, q, n) by {
            assert(blocking_sum(w, cells, p, q, (n - 1) as nat) == blocking_sum(v, cells, p, q, (n - 1) as nat));
        }
    }
}

proof fn lemma_split(n: int, x: int, y: int)
    ensures
        n * x - n * y == (x - y) * n,
        (-n) * x == -(n * x),
{
    assert(n * x - n * y == (x - y) * n) by (nonlinear_arith);
    assert((-n) * x == -(n * x)) by (nonlinear_arith);
}

proof fn lemma_around(cells: Seq<Cell>, s: int)
    requires
        0 <= s < 36,
    ensures
        mobility_of(cells, Player::White, s, 8) == gaps_ahead(cells, s, -1),
        mobility_of(cells, Player::Black, s, 8) == gaps_ahead(cells, s, 1),
        is_trapped(cells, s) == (gaps_around(cells, s) == 0),
{
    reveal_with_fuel(mobility_of, 9);
    assert forall|row: int, col: int| 0 <= row < 6 && 0 <= col < 6 implies #[trigger] (6 * row + col) / 6 == row by {}
    if is_trapped(cells, s) {
        assert(!crate::heuristic::free_dir(cells, s, 0));
        assert(!crate::heuristic::free_dir(cells, s, 1));
        assert(!crate::heuristic::free_dir(cells, s, 2));
        assert(!crate::heuristic::free_dir(cells, s, 3));
        assert(!crate::heuristic::free_dir(cells, s, 4));
        assert(!crate::heuristic::free_dir(cells, s, 5));
        assert(!crate::heuristic::free_dir(cells, s, 6));
        assert(!crate::heuristic::free_dir(cells, s, 7));
    }
}

proof fn lemma_leaps(cells: Seq<Cell>, s: int)
    requires
        0 <= s < 36,
    ensures
        jumps_of(cells, Player::White, s, 8) == leaps_ahead(cells, s, -1, Cell::WhitePail),
        jumps_of(cells, Player::Black, s, 8) == leaps_ahead(cells, s, 1, Cell::BlackPail),
{
    reveal_with_fuel(jumps_of, 9);
    assert forall|row: int, col: int| 0 <= row < 6 && 0 <= col < 6 implies #[trigger] (6 * row + col) / 6 == row by {}
}

proof fn lemma_clear(cells: Seq<Cell>, s: int)
    requires
        0 <= s < 36,
    ensures
        is_passed(cells, Player::White, s) == way_is_clear(cells, s, true),
        is_passed(cells, Player::Black, s) == way_is_clear(cells, s, false),
{
    assert forall|row: int| 0 <= row < 6 implies (6 * row + s % 6) / 6 == row && (#[trigger] (6 * row + s % 6)) % 6 == s % 6 by {}
    assert forall|t: int| 0 <= t < 36 && t % 6 == s % 6 implies #[trigger] (6 * (t / 6) + s % 6) == t by {}
    if way_is_clear(cells, s, true) {
        assert forall|t: int|
            0 <= t < 36 && crate::squares::col_of(t) == crate::squares::col_of(s) && crate::heuristic::ahead(Player::White, t, s)
            implies !crate::heuristic::hostile(#[trigger] cells[t], Player::White) by {
            let row = t / 6;
            assert(cells[6 * row + s % 6] == cells[t]);
        }
    }
    if way_is_clear(cells, s, false) {
        assert forall|t: int|
            0 <= t < 36 && crate::squares::col_of(t) == crate::squares::col_of(s) && crate::heuristic::ahead(Player::Black, t, s)
            implies !crate::heuristic::hostile(#[trigger] cells[t], Player::Black) by {
            let row = t / 6;
            assert(cells[6 * row + s % 6] == cells[t]);
        }
    }
}

proof fn lemma_over_same(f: spec_fn(int) -> int, g: spec_fn(int) -> int, n: nat)
    requires
        forall|s: int| 0 <= s < n ==> #[trigger] f(s) == g(s),
    ensures
        over(f, n) == over(g, n),
    decreases n,
{
    if n > 0 {
        lemma_over_same(f, g, (n - 1) as nat);
        assert(f(n - 1) == g(n - 1));
    }
}

/// A lead is the sum of what the barrels add.
proof fn lemma_lead_is(cells: Seq<Cell>, f: spec_fn(int) -> int, white: spec_fn(int) -> int, black: spec_fn(int) -> int)
    requires
        forall|s: int|
            0 <= s < 36 ==> #[trigger] f(s) == if cells[s] == Cell::WhiteBarrel {
                white(s)
            } else if cells[s] == Cell::BlackBarrel {
                -black(s)
            } else {
                0
            },
    ensures
        lead(cells, white, black) == over(f, 36),
{
    lemma_over_same(
        f,
        |s: int|
            if cells[s] == Cell::WhiteBarrel {
                white(s)
            } else if cells[s] == Cell::BlackBarrel {
                -black(s)
            } else {
                0
            },
        36,
    );
}

/// How the terms of the two sides add up to leads.
#[verifier::spinoff_prover]
proof fn lemma_leads(cells: Seq<Cell>, f: spec_fn(int) -> int, kind: int, n: nat)
    requires
        n <= 36,
        forall|s: int|
            0 <= s < 36 ==> #[trigger] f(s) == if cells[s] == Cell::WhiteBarrel {
                part(cells, s, kind, true)
            } else if cells[s] == Cell::BlackBarrel {
                -part(cells, s, kind, false)
            } else {
                0
            },
    ensures
        kind == 0 ==> over(f, n) == progress_sum(cells, Player::White, n) - progress_sum(cells, Player::Black, n),
        kind == 1 ==> over(f, n) == at_dist_sum(cells, Player::White, 1, n) - at_dist_sum(cells, Player::Black, 1, n),
        kind == 2 ==> over(f, n) == at_dist_sum(cells, Player::White, 2, n) - at_dist_sum(cells, Player::Black, 2, n),
        kind == 3 ==> over(f, n) == mobility_sum(cells, Player::White, n) - mobility_sum(cells, Player::Black, n),
        kind == 4 ==> over(f, n) == passed_sum(cells, Player::White, n) - passed_sum(cells, Player::Black, n),
        kind == 5 ==> over(f, n) == trapped_sum(cells, Player::White, n) - trapped_sum(cells, Player::Black, n),
        kind == 6 ==> over(f, n) == jumps_sum(cells, Player::White, n) - jumps_sum(cells, Player::Black, n),
    decreases n,
{
    if n > 0 {
        let s = n - 1;
        lemma_leads(cells, f, kind, (n - 1) as nat);
        lemma_around(cells, s);
        lemma_leaps(cells, s);
        lemma_clear(cells, s);
        assert(f(s) == f(s));
    }
}

/// What one barrel adds to a term of its side.
spec fn part(cells: Seq<Cell>, s: int, kind: int, white: bool) -> int {
    let left = if white {
        s / 6
    } else {
        5 - s / 6
    };
    let up = if white {
        -1int
    } else {
        1
    };
    if kind == 0 {
        5 - left
    } else if kind == 1 {
        if left == 1 {
            1
        } else {
            0
        }
    } else if kind == 2 {
        if left == 2 {
            1
        } else {
            0
        }
    } else if kind == 3 {
        gaps_ahead(cells, s, up)
    } else if kind == 4 {
        if way_is_clear(cells, s, white) {
            1
        } else {
            0
        }
    } else if kind == 5 {
        if gaps_around(cells, s) == 0 {
            1
        } else {
            0
        }
    } else {
        leaps_ahead(
            cells,
            s,
            up,
            if white {
                Cell::WhitePail
            } else {
                Cell::BlackPail
            },
        )
    }
}

/// The race distances that the evaluation uses are those of the two sides.
pub(crate) proof fn lemma_races_of(bb: BitBoard, wd: u16, bd: u16)
    requires
        bb.wf(),
        race_pair(bb, wd, bd),
    ensures
        races_of(bb) == (wd, bd),
{
    let p = (wd, bd);
    assert(race_pair(bb, p.0, p.1));
    let (x, y) = races_of(bb);
    lemma_race_pair_unique(bb, x, y, wd, bd);
}

/// With no weight at all an undecided position is worth nothing; a finished game
/// is worth a fixed amount for its winner, whatever the weights. White is asked
/// first.
pub proof fn law_evaluation_of_nothing(w: EvalWeights, bb: BitBoard, race: RaceTable, r: i32)
    requires
        call_ensures(EvalWeights::evaluate, (&w, &bb, &race), r),
    ensures
        bb.white_scored == 4 ==> r == 100_000,
        bb.black_scored == 4 && bb.white_scored != 4 ==> r == -100_000,
        bb.white_scored < 4 && bb.black_scored < 4 && w == (EvalWeights {
            progress: 0,
            center_pail: 0,
            blocking: 0,
            scored: 0,
            threat: 0,
            threat2: 0,
            adj_blocking: 0,
            mobility: 0,
            passed: 0,
            trapped: 0,
            score_accel: 0,
            eg_threat: 0,
            jump: 0,
            race: 0,
        }) ==> r == 0,
{
    assert(r == heuristic_of(w, bb));
    assert(bb@.white_scored == bb.white_scored && bb@.black_scored == bb.black_scored);
    if bb.white_scored < 4 && bb.black_scored < 4 && w.blocking == 0 && w.adj_blocking == 0 {
        lemma_nothing_blocked(w, bb@.cells, 36);
        let n = at_dist_sum(bb@.cells, Player::White, 1, 36) - at_dist_sum(bb@.cells, Player::Black, 1, 36);
        let k = bb@.white_scored + bb@.black_scored;
        assert(n * 0 * k == 0) by (nonlinear_arith);
    }
}

proof fn lemma_nothing_blocked(w: EvalWeights, cells: Seq<Cell>, n: nat)
    requires
        w.blocking == 0,
        w.adj_blocking == 0,
    ensures
        forall|p: Player, q: int| #[trigger] blocking_sum(w, cells, p, q, n) == 0,
    decreases n,
{
    if n > 0 {
        lemma_nothing_blocked(w, cells, (n - 1) as nat);
        assert forall|p: Player, q: int| #[trigger] blocking_sum(w, cells, p, q, n) == 0 by {
            assert(blocking_sum(w, cells, p, q, (n - 1) as nat) == 0);
        }
    }
}

/// The weight of scored barrels counts white's lead in barrels home, whatever the
/// other weights.
#[verifier::spinoff_prover]
pub proof fn law_scored_weight(w: EvalWeights, v: EvalWeights, bb: BitBoard, race: RaceTable, r: i32, s: i32)
    requires
        v == (EvalWeights { scored: v.scored, ..w }),
        bb.white_scored < 4,
        bb.black_scored < 4,
        call_ensures(EvalWeights::evaluate, (&w, &bb, &race), r),
        call_ensures(EvalWeights::evaluate, (&v, &bb, &race), s),
    ensures
        s - r == (v.scored - w.scored) * (bb.white_scored - bb.black_scored),
{
    assert(r == heuristic_of(w, bb) && s == heuristic_of(v, bb));
    assert(bb@.white_scored == bb.white_scored && bb@.black_scored == bb.black_scored);
    lemma_blocking_same(w, v, bb@.cells, 36);
    let n = bb.white_scored - bb.black_scored;
    lemma_split(n, v.scored as int, w.scored as int);
}

/// The weight of progress counts the rows that white's barrels have come from row
/// 5, less those that black's have come from row 0.
#[verifier::spinoff_prover]
pub proof fn law_progress_weight(w: EvalWeights, v: EvalWeights, bb: BitBoard, race: RaceTable, r: i32, s: i32)
    requires
        v == (EvalWeights { progress: v.progress, ..w }),
        bb.white_scored < 4,
        bb.black_scored < 4,
        call_ensures(EvalWeights::evaluate, (&w, &bb, &race), r),
        call_ensures(EvalWeights::evaluate, (&v, &bb, &race), s),
    ensures
        s - r == (v.progress - w.progress) * lead(
            bb@.cells,
            |q: int| 5 - q / 6,
            |q: int| q / 6,
        ),
{
    assert(r == heuristic_of(w, bb) && s == heuristic_of(v, bb));
    assert(bb@.white_scored == bb.white_scored && bb@.black_scored == bb.black_scored);
    lemma_blocking_same(w, v, bb@.cells, 36);
    let c = bb@.cells;
    let white = |q: int| 5 - q / 6;
    let black = |q: int| q / 6;
    let f = |q: int|
        if c[q] == Cell::WhiteBarrel {
            white(q)
        } else if c[q] == Cell::BlackBarrel {
            -black(q)
        } else {
            0
        };
    lemma_leads(c, f, 0, 36);
    lemma_lead_is(c, f, white, black);
    let n = lead(c, white, black);
    lemma_split(n, v.progress as int, w.progress as int);
}

/// The weight of threats counts the barrels one row from home.
#[verifier::spinoff_prover]
pub proof fn law_threat_weight(w: EvalWeights, v: EvalWeights, bb: BitBoard, race: RaceTable, r: i32, s: i32)
    requires
        v == (EvalWeights { threat: v.threat, ..w }),
        bb.white_scored < 4,
        bb.black_scored < 4,
        call_ensures(EvalWeights::evaluate, (&w, &bb, &race), r),
        call_ensures(EvalWeights::evaluate, (&v, &bb, &race), s),
    ensures
        s - r == (v.threat - w.threat) * lead(
            bb@.cells,
            |q: int| if q / 6 == 1 { 1int } else { 0 },
            |q: int| if q / 6 == 4 { 1int } else { 0 },
        ),
{
    assert(r == heuristic_of(w, bb) && s == heuristic_of(v, bb));
    assert(bb@.white_scored == bb.white_scored && bb@.black_scored == bb.black_scored);
    lemma_blocking_same(w, v, bb@.cells, 36);
    let c = bb@.cells;
    let white = |q: int| if q / 6 == 1 { 1int } else { 0 };
    let black = |q: int| if q / 6 == 4 { 1int } else { 0 };
    let f = |q: int|
        if c[q] == Cell::WhiteBarrel {
            white(q)
        } else if c[q] == Cell::BlackBarrel {
            -black(q)
        } else {
            0
        };
    lemma_leads(c, f, 1, 36);
    lemma_lead_is(c, f, white, black);
    let n = lead(c, white, black);
    lemma_split(n, v.threat as int, w.threat as int);
}

/// The second weight of threats counts the barrels two rows from home.
#[verifier::spinoff_prover]
pub proof fn law_second_threat_weight(w: EvalWeights, v: EvalWeights, bb: BitBoard, race: RaceTable, r: i32, s: i32)
    requires
        v == (EvalWeights { threat2: v.threat2, ..w }),
        bb.white_scored < 4,
        bb.black_scored < 4,
        call_ensures(EvalWeights::evaluate, (&w, &bb, &race), r),
        call_ensures(EvalWeights::evaluate, (&v, &bb, &race), s),
    ensures
        s - r == (v.threat2 - w.threat2) * lead(
            bb@.cells,
            |q: int| if q / 6 == 2 { 1int } else { 0 },
            |q: int| if q / 6 == 3 { 1int } else { 0 },
        ),
{
    assert(r == heuristic_of(w, bb) && s == heuristic_of(v, bb));
    assert(bb@.white_scored == bb.white_scored && bb@.black_scored == bb.black_scored);
    lemma_blocking_same(w, v, bb@.cells, 36);
    let c = bb@.cells;
    let white = |q: int| if q / 6 == 2 { 1int } else { 0 };
    let black = |q: int| if q / 6 == 3 { 1int } else { 0 };
    let f = |q: int|
        if c[q] == Cell::WhiteBarrel {
            white(q)
        } else if c[q] == Cell::BlackBarrel {
            -black(q)
        } else {
            0
        };
    lemma_leads(c, f, 2, 36);
    lemma_lead_is(c, f, white, black);
    let n = lead(c, white, black);
    lemma_split(n, v.threat2 as int, w.threat2 as int);
}

/// The weight of mobility counts the empty squares that barrels can step to ahead.
#[verifier::spinoff_prover]
pub proof fn law_mobility_weight(w: EvalWeights, v: EvalWeights, bb: BitBoard, race: RaceTable, r: i32, s: i32)
    requires
        v == (EvalWeights { mobility: v.mobility, ..w }),
        bb.white_scored < 4,
        bb.black_scored < 4,
        call_ensures(EvalWeights::evaluate, (&w, &bb, &race), r),
        call_ensures(EvalWeights::evaluate, (&v, &bb, &race), s),
    ensures
        s - r == (v.mobility - w.mobility) * lead(
            bb@.cells,
            |q: int| gaps_ahead(bb@.cells, q, -1),
            |q: int| gaps_ahead(bb@.cells, q, 1),
        ),
{
    assert(r == heuristic_of(w, bb) && s == heuristic_of(v, bb));
    assert(bb@.white_scored == bb.white_scored && bb@.black_scored == bb.black_scored);
    lemma_blocking_same(w, v, bb@.cells, 36);
    let c = bb@.cells;
    let white = |q: int| gaps_ahead(bb@.cells, q, -1);
    let black = |q: int| gaps_ahead(bb@.cells, q, 1);
    let f = |q: int|
        if c[q] == Cell::WhiteBarrel {
            white(q)
        } else if c[q] == Cell::BlackBarrel {
            -black(q)
        } else {
            0
        };
    lemma_leads(c, f, 3, 36);
    lemma_lead_is(c, f, white, black);
    let n = lead(c, white, black);
    lemma_split(n, v.mobility as int, w.mobility as int);
}

/// The weight of passed barrels counts those with a clear way home.
#[verifier::spinoff_prover]
pub proof fn law_passed_weight(w: EvalWeights, v: EvalWeights, bb: BitBoard, race: RaceTable, r: i32, s: i32)
    requires
        v == (EvalWeights { passed: v.passed, ..w }),
        bb.white_scored < 4,
        bb.black_scored < 4,
        call_ensures(EvalWeights::evaluate, (&w, &bb, &race), r),
        call_ensures(EvalWeights::evaluate, (&v, &bb, &race), s),
    ensures
        s - r == (v.passed - w.passed) * lead(
            bb@.cells,
            |q: int| if way_is_clear(bb@.cells, q, true) { 1int } else { 0 },
            |q: int| if way_is_clear(bb@.cells, q, false) { 1int } else { 0 },
        ),
{
    assert(r == heuristic_of(w, bb) && s == heuristic_of(v, bb));
    assert(bb@.white_scored == bb.white_scored && bb@.black_scored == bb.black_scored);
    lemma_blocking_same(w, v, bb@.cells, 36);
    let c = bb@.cells;
    let white = |q: int| if way_is_clear(bb@.cells, q, true) { 1int } else { 0 };
    let black = |q: int| if way_is_clear(bb@.cells, q, false) { 1int } else { 0 };
    let f = |q: int|
        if c[q] == Cell::WhiteBarrel {
            white(q)
        } else if c[q] == Cell::BlackBarrel {
            -black(q)
        } else {
            0
        };
    lemma_leads(c, f, 4, 36);
    lemma_lead_is(c, f, white, black);
    let n = lead(c, white, black);
    lemma_split(n, v.passed as int, w.passed as int);
}

/// The weight of jumps counts the jumps ahead.
#[verifier::spinoff_prover]
pub proof fn law_jump_weight(w: EvalWeights, v: EvalWeights, bb: BitBoard, race: RaceTable, r: i32, s: i32)
    requires
        v == (EvalWeights { jump: v.jump, ..w }),
        bb.white_scored < 4,
        bb.black_scored < 4,
        call_ensures(EvalWeights::evaluate, (&w, &bb, &race), r),
        call_ensures(EvalWeights::evaluate, (&v, &bb, &race), s),
    ensures
        s - r == (v.jump - w.jump) * lead(
            bb@.cells,
            |q: int| leaps_ahead(bb@.cells, q, -1, Cell::WhitePail),
            |q: int| leaps_ahead(bb@.cells, q, 1, Cell::BlackPail),
        ),
{
    assert(r == heuristic_of(w, bb) && s == heuristic_of(v, bb));
    assert(bb@.white_scored == bb.white_scored && bb@.black_scored == bb.black_scored);
    lemma_blocking_same(w, v, bb@.cells, 36);
    let c = bb@.cells;
    let white = |q: int| leaps_ahead(bb@.cells, q, -1, Cell::WhitePail);
    let black = |q: int| leaps_ahead(bb@.cells, q, 1, Cell::BlackPail);
    let f = |q: int|
        if c[q] == Cell::WhiteBarrel {
            white(q)
        } else if c[q] == Cell::BlackBarrel {
            -black(q)
        } else {
            0
        };
    lemma_leads(c, f, 6, 36);
    lemma_lead_is(c, f, white, black);
    let n = lead(c, white, black);
    lemma_split(n, v.jump as int, w.jump as int);
}

/// Trapped barrels count against their side: the weight counts black's barrels
/// without an empty square around them, less white's.
#[verifier::spinoff_prover]
pub proof fn law_trapped_weight(w: EvalWeights, v: EvalWeights, bb: BitBoard, race: RaceTable, r: i32, s: i32)
    requires
        v == (EvalWeights { trapped: v.trapped, ..w }),
        bb.white_scored < 4,
        bb.black_scored < 4,
        call_ensures(EvalWeights::evaluate, (&w, &bb, &race), r),
        call_ensures(EvalWeights::evaluate, (&v, &bb, &race), s),
    ensures
        r - s == (v.trapped - w.trapped) * lead(
            bb@.cells,
            |q: int| if gaps_around(bb@.cells, q) == 0 { 1int } else { 0 },
            |q: int| if gaps_around(bb@.cells, q) == 0 { 1int } else { 0 },
        ),
{
    assert(r == heuristic_of(w, bb) && s == heuristic_of(v, bb));
    assert(bb@.white_scored == bb.white_scored && bb@.black_scored == bb.black_scored);
    lemma_blocking_same(w, v, bb@.cells, 36);
    let c = bb@.cells;
    let white = |q: int| if gaps_around(bb@.cells, q) == 0 { 1int } else { 0 };
    let black = |q: int| if gaps_around(bb@.cells, q) == 0 { 1int } else { 0 };
    let f = |q: int|
        if c[q] == Cell::WhiteBarrel {
            white(q)
        } else if c[q] == Cell::BlackBarrel {
            -black(q)
        } else {
            0
        };
    lemma_leads(c, f, 5, 36);
    lemma_lead_is(c, f, white, black);
    let n = lead(c, white, black);
    lemma_split(n, v.trapped as int, w.trapped as int);
}

/// The weight of the race counts by how many moves white is nearer to having all
/// its barrels home.
#[verifier::spinoff_prover]
pub proof fn law_race_weight(w: EvalWeights, v: EvalWeights, bb: BitBoard, race: RaceTable, wd: u16, bd: u16, r: i32, s: i32)
    requires
        v == (EvalWeights { race: v.race, ..w }),
        bb.white_scored < 4,
        bb.black_scored < 4,
        bb.wf(),
        call_ensures(RaceTable::side_distance, (&race, &bb, Player::White), wd),
        call_ensures(RaceTable::side_distance, (&race, &bb, Player::Black), bd),
        call_ensures(EvalWeights::evaluate, (&w, &bb, &race), r),
        call_ensures(EvalWeights::evaluate, (&v, &bb, &race), s),
    ensures
        s - r == (v.race - w.race) * (bd - wd),
{
    assert(r == heuristic_of(w, bb) && s == heuristic_of(v, bb));
    assert(bb@.white_scored == bb.white_scored && bb@.black_scored == bb.black_scored);
    lemma_blocking_same(w, v, bb@.cells, 36);
    lemma_races_of(bb, wd, bd);
    let n = bd - wd;
    lemma_split(n, v.race as int, w.race as int);
}

/// What barrels home add beyond their number: the triangle of those after the
/// first.
pub open spec fn extra(home: u8) -> int {
    home * (home - 1) / 2
}

proof fn lemma_extra(home: u8)
    requires
        home < 4,
    ensures
        extra(home) == crate::heuristic::accel(home as int),
{
    let h = home as int;
    assert(h == 0 || h == 1 || h == 2 || h == 3);
    if h == 2 {
        assert(h * (h - 1) == 2) by (nonlinear_arith)
            requires
                h == 2,
        ;
    }
    if h == 3 {
        assert(h * (h - 1) == 6) by (nonlinear_arith)
            requires
                h == 3,
        ;
    }
    if h == 1 {
        assert(h * (h - 1) == 0) by (nonlinear_arith)
            requires
                h == 1,
        ;
    }
}

/// The weight of acceleration counts nothing for one barrel home, once for two
/// and three times for three.
#[verifier::spinoff_prover]
pub proof fn law_acceleration_weight(w: EvalWeights, v: EvalWeights, bb: BitBoard, race: RaceTable, r: i32, s: i32)
    requires
        v == (EvalWeights { score_accel: v.score_accel, ..w }),
        bb.white_scored < 4,
        bb.black_scored < 4,
        call_ensures(EvalWeights::evaluate, (&w, &bb, &race), r),
        call_ensures(EvalWeights::evaluate, (&v, &bb, &race), s),
    ensures
        s - r == (v.score_accel - w.score_accel) * (extra(bb.white_scored) - extra(bb.black_scored)),
{
    assert(r == heuristic_of(w, bb) && s == heuristic_of(v, bb));
    assert(bb@.white_scored == bb.white_scored && bb@.black_scored == bb.black_scored);
    lemma_blocking_same(w, v, bb@.cells, 36);
    lemma_extra(bb.white_scored);
    lemma_extra(bb.black_scored);
    let n = extra(bb.white_scored) - extra(bb.black_scored);
    lemma_split(n, v.score_accel as int, w.score_accel as int);
}

/// The piece stands on this square and on no other, or nowhere.
pub open spec fn stands(cells: Seq<Cell>, piece: Cell, at: Option<int>) -> bool {
    match at {
        Some(q) => 0 <= q < 36 && cells[q] == piece && forall|t: int| 0 <= t < 36 && cells[t] == piece ==> t == q,
        None => forall|t: int| 0 <= t < 36 ==> cells[t] != piece,
    }
}

/// How far apart two numbers are.
pub open spec fn apart(a: int, b: int) -> int {
    if a < b {
        b - a
    } else {
        a - b
    }
}

/// Six for a pail on the square with this row and column, one less for every row
/// and column it is away from there.
pub open spec fn central(pail: Option<int>, center: int) -> int {
    match pail {
        Some(q) => 6 - apart(q / 6, center) - apart(q % 6, center),
        None => 0,
    }
}

/// One for a barrel that the pail on `q` holds up.
pub open spec fn held_by(cells: Seq<Cell>, q: int, barrel: Cell, up: int, off: int) -> spec_fn(int) -> int {
    |s: int|
        if cells[s] == barrel && (if up < 0 {
            q / 6 < s / 6
        } else {
            q / 6 > s / 6
        }) && apart(q % 6, s % 6) == off {
            1
        } else {
            0
        }
}

/// The barrels that still have to pass the row of the pail, `off` columns beside
/// it; `up` is -1 for barrels on the way to row 0.
pub open spec fn held_up(cells: Seq<Cell>, pail: Option<int>, barrel: Cell, up: int, off: int) -> int {
    match pail {
        Some(q) => over(held_by(cells, q, barrel, up, off), 36),
        None => 0,
    }
}

pub(crate) proof fn lemma_stands(cells: Seq<Cell>, p: Player, piece: Cell, at: Option<int>)
    requires
        stands(cells, piece, at),
        piece == crate::rules::pail_of(p),
    ensures
        crate::heuristic::pail_from(cells, p, 0) == match at {
            Some(q) => q,
            None => -1,
        },
{
    match at {
        Some(q) => {
            assert forall|t: int| 0 <= t < q implies cells[t] != piece by {}
            crate::heuristic::lemma_pail_from(cells, p, 0, q);
        },
        None => {
            crate::heuristic::lemma_no_pail(cells, p, 0);
        },
    }
}

/// What a pail blocks: the barrels of the other side it holds up in its column
/// and in the next ones, each with its weight.
#[verifier::spinoff_prover]
proof fn lemma_held(w: EvalWeights, cells: Seq<Cell>, p: Player, q: int, f: spec_fn(int) -> int, g: spec_fn(int) -> int, n: nat)
    requires
        0 <= q < 36,
        n <= 36,
        forall|s: int|
            0 <= s < 36 ==> #[trigger] f(s) == if cells[s] == crate::rules::barrel_of(p.opponent()) && (if p == Player::Black {
                q / 6 < s / 6
            } else {
                q / 6 > s / 6
            }) && apart(q % 6, s % 6) == 0 {
                1int
            } else {
                0
            },
        forall|s: int|
            0 <= s < 36 ==> #[trigger] g(s) == if cells[s] == crate::rules::barrel_of(p.opponent()) && (if p == Player::Black {
                q / 6 < s / 6
            } else {
                q / 6 > s / 6
            }) && apart(q % 6, s % 6) == 1 {
                1int
            } else {
                0
            },
    ensures
        blocking_sum(w, cells, p, q, n) == over(f, n) * w.blocking + over(g, n) * w.adj_blocking,
    decreases n,
{
    let a = w.blocking as int;
    let b = w.adj_blocking as int;
    if n > 0 {
        lemma_held(w, cells, p, q, f, g, (n - 1) as nat);
        let s = n - 1;
        let x = over(f, (n - 1) as nat);
        let y = over(g, (n - 1) as nat);
        assert(f(s) == f(s) && g(s) == g(s));
        assert((x + 1) * a == x * a + a && (y + 1) * b == y * b + b) by (nonlinear_arith);
        assert(0 * a == 0 && 0 * b == 0);
    } else {
        assert(0 * a == 0 && 0 * b == 0);
    }
}

pub(crate) proof fn lemma_pail_worth(w: EvalWeights, cells: Seq<Cell>, p: Player, at: Option<int>)
    requires
        stands(cells, crate::rules::pail_of(p), at),
    ensures
        crate::heuristic::pail_score(w, cells, p) == central(
            at,
            if p == Player::White {
                2
            } else {
                3
            },
        ) * w.center_pail + held_up(
            cells,
            at,
            crate::rules::barrel_of(p.opponent()),
            if p == Player::White {
                1
            } else {
                -1int
            },
            0,
        ) * w.blocking + held_up(
            cells,
            at,
            crate::rules::barrel_of(p.opponent()),
            if p == Player::White {
                1
            } else {
                -1int
            },
            1,
        ) * w.adj_blocking,
{
    lemma_stands(cells, p, crate::rules::pail_of(p), at);
    let barrel = crate::rules::barrel_of(p.opponent());
    let up = if p == Player::White {
        1
    } else {
        -1int
    };
    match at {
        Some(q) => {
            let f = |s: int|
                if cells[s] == barrel && (if up < 0 {
                    q / 6 < s / 6
                } else {
                    q / 6 > s / 6
                }) && apart(q % 6, s % 6) == 0 {
                    1int
                } else {
                    0
                };
            let g = |s: int|
                if cells[s] == barrel && (if up < 0 {
                    q / 6 < s / 6
                } else {
                    q / 6 > s / 6
                }) && apart(q % 6, s % 6) == 1 {
                    1int
                } else {
                    0
                };
            lemma_held(w, cells, p, q, f, g, 36);
            assert(held_up(cells, at, barrel, up, 0) == over(f, 36)) by {
                lemma_over_same(f, held_by(cells, q, barrel, up, 0), 36);
            }
            assert(held_up(cells, at, barrel, up, 1) == over(g, 36)) by {
                lemma_over_same(g, held_by(cells, q, barrel, up, 1), 36);
            }
        },
        None => {
            let a = w.center_pail as int;
            let b = w.blocking as int;
            let c = w.adj_blocking as int;
            assert(0 * a == 0 && 0 * b == 0 && 0 * c == 0);
        },
    }
}

/// The weight of the centre counts how near to the middle each pail stands: for
/// white to row 2 and column 2, for black to row 3 and column 3.
#[verifier::spinoff_prover]
pub proof fn law_center_weight(w: EvalWeights, v: EvalWeights, bb: BitBoard, race: RaceTable, white: Option<int>, black: Option<int>, r: i32, s: i32)
    requires
        v == (EvalWeights { center_pail: v.center_pail, ..w }),
        stands(bb@.cells, Cell::WhitePail, white),
        stands(bb@.cells, Cell::BlackPail, black),
        bb.white_scored < 4,
        bb.black_scored < 4,
        call_ensures(EvalWeights::evaluate, (&w, &bb, &race), r),
        call_ensures(EvalWeights::evaluate, (&v, &bb, &race), s),
    ensures
        s - r == (v.center_pail - w.center_pail) * (central(white, 2) - central(black, 3)),
{
    assert(r == heuristic_of(w, bb) && s == heuristic_of(v, bb));
    assert(bb@.white_scored == bb.white_scored && bb@.black_scored == bb.black_scored);
    lemma_pail_worth(w, bb@.cells, Player::White, white);
    lemma_pail_worth(v, bb@.cells, Player::White, white);
    lemma_pail_worth(w, bb@.cells, Player::Black, black);
    lemma_pail_worth(v, bb@.cells, Player::Black, black);
    let x = central(white, 2);
    let y = central(black, 3);
    let n = x - y;
    let i = v.center_pail as int;
    let j = w.center_pail as int;
    assert(x * i - x * j - (y * i - y * j) == (i - j) * (x - y)) by (nonlinear_arith);
    lemma_split(n, v.center_pail as int, w.center_pail as int);
}

/// The weight of blocking counts the barrels that a pail of the other side holds
/// up in its own column.
#[verifier::spinoff_prover]
pub proof fn law_blocking_weight(w: EvalWeights, v: EvalWeights, bb: BitBoard, race: RaceTable, white: Option<int>, black: Option<int>, r: i32, s: i32)
    requires
        v == (EvalWeights { blocking: v.blocking, ..w }),
        stands(bb@.cells, Cell::WhitePail, white),
        stands(bb@.cells, Cell::BlackPail, black),
        bb.white_scored < 4,
        bb.black_scored < 4,
        call_ensures(EvalWeights::evaluate, (&w, &bb, &race), r),
        call_ensures(EvalWeights::evaluate, (&v, &bb, &race), s),
    ensures
        s - r == (v.blocking - w.blocking) * (held_up(bb@.cells, white, Cell::BlackBarrel, 1, 0) - held_up(bb@.cells, black, Cell::WhiteBarrel, -1, 0)),
{
    assert(r == heuristic_of(w, bb) && s == heuristic_of(v, bb));
    assert(bb@.white_scored == bb.white_scored && bb@.black_scored == bb.black_scored);
    lemma_pail_worth(w, bb@.cells, Player::White, white);
    lemma_pail_worth(v, bb@.cells, Player::White, white);
    lemma_pail_worth(w, bb@.cells, Player::Black, black);
    lemma_pail_worth(v, bb@.cells, Player::Black, black);
    let x = held_up(bb@.cells, white, Cell::BlackBarrel, 1, 0);
    let y = held_up(bb@.cells, black, Cell::WhiteBarrel, -1, 0);
    let n = x - y;
    let i = v.blocking as int;
    let j = w.blocking as int;
    assert(x * i - x * j - (y * i - y * j) == (i - j) * (x - y)) by (nonlinear_arith);
    lemma_split(n, v.blocking as int, w.blocking as int);
}

/// The second weight of blocking counts those held up one column beside it.
#[verifier::spinoff_prover]
pub proof fn law_side_blocking_weight(w: EvalWeights, v: EvalWeights, bb: BitBoard, race: RaceTable, white: Option<int>, black: Option<int>, r: i32, s: i32)
    requires
        v == (EvalWeights { adj_blocking: v.adj_blocking, ..w }),
        stands(bb@.cells, Cell::WhitePail, white),
        stands(bb@.cells, Cell::BlackPail, black),
        bb.white_scored < 4,
        bb.black_scored < 4,
        call_ensures(EvalWeights::evaluate, (&w, &bb, &race), r),
        call_ensures(EvalWeights::evaluate, (&v, &bb, &race), s),
    ensures
        s - r == (v.adj_blocking - w.adj_blocking) * (held_up(bb@.cells, white, Cell::BlackBarrel, 1, 1) - held_up(bb@.cells, black, Cell::WhiteBarrel, -1, 1)),
{
    assert(r == heuristic_of(w, bb) && s == heuristic_of(v, bb));
    assert(bb@.white_scored == bb.white_scored && bb@.black_scored == bb.black_scored);
    lemma_pail_worth(w, bb@.cells, Player::White, white);
    lemma_pail_worth(v, bb@.cells, Player::White, white);
    lemma_pail_worth(w, bb@.cells, Player::Black, black);
    lemma_pail_worth(v, bb@.cells, Player::Black, black);
    let x = held_up(bb@.cells, white, Cell::BlackBarrel, 1, 1);
    let y = held_up(bb@.cells, black, Cell::WhiteBarrel, -1, 1);
    let n = x - y;
    let i = v.adj_blocking as int;
    let j = w.adj_blocking as int;
    assert(x * i - x * j - (y * i - y * j) == (i - j) * (x - y)) by (nonlinear_arith);
    lemma_split(n, v.adj_blocking as int, w.adj_blocking as int);
}

/// The weight of endgame threats counts the barrels one row from home once for
/// every barrel that either side has home, in quarters, the fraction dropped.
#[verifier::spinoff_prover]
pub proof fn law_endgame_threat_weight(w: EvalWeights, v: EvalWeights, bb: BitBoard, race: RaceTable, r: i32, s: i32)
    requires
        v == (EvalWeights { eg_threat: v.eg_threat, ..w }),
        w.eg_threat == 0,
        bb.white_scored < 4,
        bb.black_scored < 4,
        call_ensures(EvalWeights::evaluate, (&w, &bb, &race), r),
        call_ensures(EvalWeights::evaluate, (&v, &bb, &race), s),
    ensures
        ({
            let n = lead(
                bb@.cells,
                |q: int| if q / 6 == 1 { 1int } else { 0 },
                |q: int| if q / 6 == 4 { 1int } else { 0 },
            ) * v.eg_threat * (bb.white_scored + bb.black_scored);
            &&& n >= 0 ==> 0 <= 4 * (s - r) <= n < 4 * (s - r) + 4
            &&& n <= 0 ==> 4 * (s - r) - 4 < n <= 4 * (s - r) <= 0
        }),
{
    assert(r == heuristic_of(w, bb) && s == heuristic_of(v, bb));
    assert(bb@.white_scored == bb.white_scored && bb@.black_scored == bb.black_scored);
    lemma_blocking_same(w, v, bb@.cells, 36);
    let c = bb@.cells;
    let white = |q: int| if q / 6 == 1 { 1int } else { 0 };
    let black = |q: int| if q / 6 == 4 { 1int } else { 0 };
    let f = |q: int|
        if c[q] == Cell::WhiteBarrel {
            white(q)
        } else if c[q] == Cell::BlackBarrel {
            -black(q)
        } else {
            0
        };
    lemma_leads(c, f, 1, 36);
    lemma_lead_is(c, f, white, black);
    let n = lead(c, white, black);
    let k = bb.white_scored + bb.black_scored;
    assert(n * 0 * k == 0) by (nonlinear_arith);
}

/// With a positive weight for barrels home, and none for acceleration and endgame
/// threats, a side that has more barrels home in an otherwise equal position is
/// better off: the more white has home the higher, the more black has the lower.
#[verifier::spinoff_prover]
pub proof fn law_barrels_home_are_worth_having(w: EvalWeights, x: BitBoard, y: BitBoard, race: RaceTable, r: i32, s: i32)
    requires
        x.wf(),
        y.wf(),
        y == (BitBoard { white_scored: y.white_scored, black_scored: y.black_scored, hash: y.hash, ..x }),
        x.white_scored <= y.white_scored < 4,
        4 > x.black_scored >= y.black_scored,
        w.scored > 0,
        w.score_accel == 0,
        w.eg_threat == 0,
        call_ensures(EvalWeights::evaluate, (&w, &x, &race), r),
        call_ensures(EvalWeights::evaluate, (&w, &y, &race), s),
    ensures
        r <= s,
        x.white_scored < y.white_scored || x.black_scored > y.black_scored ==> r < s,
{
    assert(r == heuristic_of(w, x) && s == heuristic_of(w, y));
    assert(x@.white_scored == x.white_scored && x@.black_scored == x.black_scored);
    assert(y@.white_scored == y.white_scored && y@.black_scored == y.black_scored);
    assert(x@.cells =~= y@.cells);
    assert(race_pair(x, races_of(x).0, races_of(x).1));
    assert(race_pair(y, races_of(x).0, races_of(x).1));
    lemma_races_of(y, races_of(x).0, races_of(x).1);
    let a = x.white_scored - x.black_scored;
    let b = y.white_scored - y.black_scored;
    let k = w.scored as int;
    assert(b * k - a * k >= 0 && (b > a ==> b * k - a * k > 0)) by (nonlinear_arith)
        requires
            b >= a,
            k > 0,
    ;
    let n = at_dist_sum(x@.cells, Player::White, 1, 36) - at_dist_sum(x@.cells, Player::Black, 1, 36);
    let i = x.white_scored + x.black_scored;
    let j = y.white_scored + y.black_scored;
    assert(n * 0 * i == 0 && n * 0 * j == 0) by (nonlinear_arith);
    lemma_extra(x.white_scored);
}

} // verus!
