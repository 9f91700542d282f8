//! The handcrafted evaluation of a position, from white's point of view.
use vstd::prelude::*;
use crate::bitboard::BitBoard;
use crate::bits::{lowest, on};
use crate::board::{Cell, Player};
use crate::race::{flipped, is_answer, law_race_bound, race_state, RaceTable};
use crate::rules::{barrel_of, barrels_on, hop, jumpable, lemma_ray, pail_of, GameState};
use crate::squares::{
    col_of, lemma_tables, on_board, ray, row_of, BOARD_SIZE, JUMP_LANDING, JUMP_OVER, NUM_JUMP_DIRS,
};

verus! {

/// The weights of the evaluation's terms.
#[derive(Clone, Copy, PartialEq, Eq, Debug)]
pub struct EvalWeights {
    pub progress: i32,
    pub center_pail: i32,
    pub blocking: i32,
    pub scored: i32,
    pub threat: i32,
    /// Barrels two rows from the goal.
    pub threat2: i32,
    /// Pail in the column beside an enemy barrel, ahead of it.
    pub adj_blocking: i32,
    /// Empty neighbouring squares ahead.
    pub mobility: i32,
    /// Barrels with no enemy piece ahead in their column.
    pub passed: i32,
    /// Barrels without an empty neighbour.
    pub trapped: i32,
    /// Extra for two and three barrels home.
    pub score_accel: i32,
    /// Threats count more as more barrels are home.
    pub eg_threat: i32,
    /// Jumps ahead.
    pub jump: i32,
    /// Difference of the race distances.
    pub race: i32,
}

/// How far a weight is from zero.
#[verifier::opaque]
pub open spec fn size(w: i32) -> int {
    if w < 0 {
        -w
    } else {
        w as int
    }
}

/// No weight is less than nothing from zero.
proof fn lemma_sizes(w: EvalWeights)
    ensures
        size(w.progress) >= 0,
        size(w.center_pail) >= 0,
        size(w.blocking) >= 0,
        size(w.scored) >= 0,
        size(w.threat) >= 0,
        size(w.threat2) >= 0,
        size(w.adj_blocking) >= 0,
        size(w.mobility) >= 0,
        size(w.passed) >= 0,
        size(w.trapped) >= 0,
        size(w.score_accel) >= 0,
        size(w.eg_threat) >= 0,
        size(w.jump) >= 0,
        size(w.race) >= 0,
{
    reveal(size);
}

fn size_of(w: i32) -> (r: i64)
    ensures
        r == size(w),
        0 <= r <= 0x8000_0000,
{
    reveal(size);
    if w < 0 {
        -(w as i64)
    } else {
        w as i64
    }
}

impl EvalWeights {
    /// No sum of the weighted terms, nor a part of one, can leave the range that
    /// evaluations keep to.
    pub open spec fn ok(&self) -> bool {
        self.spread() <= EVAL_LIMIT
    }

    /// The largest sum before the endgame threats are divided by four.
    pub open spec fn spread(&self) -> int {
        self.reach() + 24 * size(self.eg_threat)
    }

    /// Whether no sum can leave the range that evaluations keep to.
    pub fn fits(&self) -> (r: bool)
        ensures
            r == self.ok(),
    {
        let pail: i64 = 6 * size_of(self.center_pail) + 4 * (size_of(self.blocking) + size_of(self.adj_blocking));
        let most: i64 = 4 * size_of(self.scored) + 3 * size_of(self.score_accel) + 20 * size_of(self.progress) + 4
            * size_of(self.threat) + 4 * size_of(self.threat2) + 32 * size_of(self.mobility) + 4 * size_of(self.passed)
            + 4 * size_of(self.trapped) + 32 * size_of(self.jump) + 32 * size_of(self.eg_threat) + 2 * pail + 24
            * size_of(self.race);
        most <= EVAL_LIMIT as i64
    }

    /// The largest sum that the weights can make.
    pub open spec fn reach(&self) -> int {
        4 * size(self.scored) + 3 * size(self.score_accel) + 20 * size(self.progress) + 4 * size(self.threat) + 4 * size(
            self.threat2,
        ) + 32 * size(self.mobility) + 4 * size(self.passed) + 4 * size(self.trapped) + 32 * size(self.jump) + 8 * size(
            self.eg_threat,
        ) + 2 * self.pail_reach() + 24 * size(self.race)
    }

    /// The most that a pail can be worth.
    pub open spec fn pail_reach(&self) -> int {
        6 * size(self.center_pail) + 4 * (size(self.blocking) + size(self.adj_blocking))
    }

    /// The tuned weights.
    pub open spec fn spec_tuned() -> EvalWeights {
        EvalWeights {
            progress: 77,
            center_pail: 15,
            blocking: 19,
            scored: 700,
            threat: 144,
            threat2: 101,
            adj_blocking: 0,
            mobility: 13,
            passed: 80,
            trapped: 1,
            score_accel: -3i32,
            eg_threat: -1i32,
            jump: 63,
            race: 80,
        }
    }

    /// The tuned weights.
    pub fn tuned() -> (r: Self)
        ensures
            r.ok(),
            r == EvalWeights::spec_tuned(),
    {
        reveal(size);
        EvalWeights {
            progress: 77,
            center_pail: 15,
            blocking: 19,
            scored: 700,
            threat: 144,
            threat2: 101,
            adj_blocking: 0,
            mobility: 13,
            passed: 80,
            trapped: 1,
            score_accel: -3,
            eg_threat: -1,
            jump: 63,
            race: 80,
        }
    }
}

/// Rows left to the goal.
pub open spec fn goal_dist(p: Player, s: int) -> int {
    match p {
        Player::White => row_of(s),
        Player::Black => 5 - row_of(s),
    }
}

/// `t` is nearer to the goal of `p` than `s`.
pub open spec fn ahead(p: Player, t: int, s: int) -> bool {
    goal_dist(p, t) < goal_dist(p, s)
}

/// A piece of the other side.
pub open spec fn hostile(c: Cell, p: Player) -> bool {
    c == barrel_of(p.opponent()) || c == pail_of(p.opponent())
}

/// No enemy piece stands ahead in the column.
pub open spec fn is_passed(cells: Seq<Cell>, p: Player, s: int) -> bool {
    goal_dist(p, s) > 0 && forall|t: int|
        on_board(t) && col_of(t) == col_of(s) && ahead(p, t, s) ==> !hostile(#[trigger] cells[t], p)
}

/// The neighbour in direction `d` is an empty square of the board.
pub open spec fn free_dir(cells: Seq<Cell>, s: int, d: int) -> bool {
    ray(s, d, 1) >= 0 && cells[ray(s, d, 1)] == Cell::Empty
}

pub open spec fn is_trapped(cells: Seq<Cell>, s: int) -> bool {
    forall|d: int| 0 <= d < 8 ==> !#[trigger] free_dir(cells, s, d)
}

/// Empty neighbours ahead among the first `n` directions.
pub open spec fn mobility_of(cells: Seq<Cell>, p: Player, s: int, n: nat) -> nat
    decreases n,
{
    if n == 0 {
        0
    } else {
        mobility_of(cells, p, s, (n - 1) as nat) + if free_dir(cells, s, n - 1) && ahead(p, ray(s, n - 1, 1), s) {
            1nat
        } else {
            0nat
        }
    }
}

/// Jumps ahead among the first `n` directions.
pub open spec fn jumps_of(cells: Seq<Cell>, p: Player, s: int, n: nat) -> nat
    decreases n,
{
    if n == 0 {
        0
    } else {
        jumps_of(cells, p, s, (n - 1) as nat) + if hop(cells, p, s, n - 1) && ahead(p, ray(s, n - 1, 2), s) {
            1nat
        } else {
            0nat
        }
    }
}

/// What the barrels of one side add up to.
#[derive(Clone, Copy, PartialEq, Eq, Debug, Structural)]
pub struct SideTerms {
    pub progress: i32,
    pub threats: i32,
    pub threats2: i32,
    pub passed: i32,
    pub trapped: i32,
    pub mobility: i32,
    pub jumps: i32,
}

pub open spec fn one_if(b: bool) -> int {
    if b {
        1
    } else {
        0
    }
}

/// The terms of the barrels of `p` below square `n`.
pub open spec fn progress_sum(cells: Seq<Cell>, p: Player, n: nat) -> int
    decreases n,
{
    if n == 0 {
        0
    } else {
        progress_sum(cells, p, (n - 1) as nat) + if cells[n - 1] == barrel_of(p) {
            5 - goal_dist(p, n - 1)
        } else {
            0
        }
    }
}

pub open spec fn at_dist_sum(cells: Seq<Cell>, p: Player, k: int, n: nat) -> int
    decreases n,
{
    if n == 0 {
        0
    } else {
        at_dist_sum(cells, p, k, (n - 1) as nat) + one_if(cells[n - 1] == barrel_of(p) && goal_dist(p, n - 1) == k)
    }
}

pub open spec fn passed_sum(cells: Seq<Cell>, p: Player, n: nat) -> int
    decreases n,
{
    if n == 0 {
        0
    } else {
        passed_sum(cells, p, (n - 1) as nat) + one_if(cells[n - 1] == barrel_of(p) && is_passed(cells, p, n - 1))
    }
}

pub open spec fn trapped_sum(cells: Seq<Cell>, p: Player, n: nat) -> int
    decreases n,
{
    if n == 0 {
        0
    } else {
        trapped_sum(cells, p, (n - 1) as nat) + one_if(cells[n - 1] == barrel_of(p) && is_trapped(cells, n - 1))
    }
}

pub open spec fn mobility_sum(cells: Seq<Cell>, p: Player, n: nat) -> int
    decreases n,
{
    if n == 0 {
        0
    } else {
        mobility_sum(cells, p, (n - 1) as nat) + if cells[n - 1] == barrel_of(p) {
            mobility_of(cells, p, n - 1, 8) as int
        } else {
            0
        }
    }
}

pub open spec fn jumps_sum(cells: Seq<Cell>, p: Player, n: nat) -> int
    decreases n,
{
    if n == 0 {
        0
    } else {
        jumps_sum(cells, p, (n - 1) as nat) + if cells[n - 1] == barrel_of(p) {
            jumps_of(cells, p, n - 1, 8) as int
        } else {
            0
        }
    }
}

/// The terms are the sums over the barrels of `p` below square `n`.
pub open spec fn terms_below(r: SideTerms, cells: Seq<Cell>, p: Player, n: nat) -> bool {
    &&& r.progress == progress_sum(cells, p, n)
    &&& r.threats == at_dist_sum(cells, p, 1, n)
    &&& r.threats2 == at_dist_sum(cells, p, 2, n)
    &&& r.passed == passed_sum(cells, p, n)
    &&& r.trapped == trapped_sum(cells, p, n)
    &&& r.mobility == mobility_sum(cells, p, n)
    &&& r.jumps == jumps_sum(cells, p, n)
}

/// The terms of up to `k` barrels stay within these bounds.
pub open spec fn terms_bounded(r: SideTerms, k: int) -> bool {
    &&& 0 <= r.progress <= 5 * k
    &&& 0 <= r.threats <= k
    &&& 0 <= r.threats2 <= k
    &&& 0 <= r.passed <= k
    &&& 0 <= r.trapped <= k
    &&& 0 <= r.mobility <= 8 * k
    &&& 0 <= r.jumps <= 8 * k
}

impl BitBoard {
    fn is_empty_square(&self, s: usize) -> (r: bool)
        requires
            self.inv(),
            s < 36,
        ensures
            r == (self@.cells[s as int] == Cell::Empty),
    {
        proof {
            self.lemma_square(s as int);
        }
        (self.occupied >> (s as u64)) & 1 != 1
    }

    /// No enemy piece stands ahead in the column of `s`.
    fn barrel_passed(&self, s: usize, player: Player) -> (r: bool)
        requires
            self.inv(),
            s < 36,
        ensures
            r == is_passed(self@.cells, player, s as int),
    {
        let enemy: Player = player.opponent();
        let obstacles: u64 = self.barrels(enemy) | self.pail(enemy);
        let row: usize = s / BOARD_SIZE;
        let col: usize = s % BOARD_SIZE;
        let ghost cells = self@.cells;
        let at_goal: bool = match player {
            Player::White => row == 0,
            Player::Black => row == BOARD_SIZE - 1,
        };
        if at_goal {
            return false;
        }
        let mut k: usize = 0;
        while k < BOARD_SIZE
            invariant
                self.inv(),
                s < 36,
                row == row_of(s as int),
                col == col_of(s as int),
                k <= 6,
                cells == self@.cells,
                obstacles == self.barrels_of(player.opponent()) | self.pail_mask_of(player.opponent()),
                forall|t: int|
                    on_board(t) && col_of(t) == col && row_of(t) < k && ahead(player, t, s as int) ==> !hostile(
                        #[trigger] cells[t],
                        player,
                    ),
            decreases 6 - k,
        {
            let nearer: bool = match player {
                Player::White => k < row,
                Player::Black => k > row,
            };
            let t: usize = k * BOARD_SIZE + col;
            proof {
                assert(row_of(t as int) == k && col_of(t as int) == col);
                self.lemma_square(t as int);
                assert(cells[t as int] == self.cell_at(t as int));
                crate::bits::lemma_has_or(
                    self.barrels_of(player.opponent()),
                    self.pail_mask_of(player.opponent()),
                    t as int,
                );
                assert(on(obstacles, t as int) == hostile(cells[t as int], player)) by {
                    assert(on(self.barrels_of(player.opponent()), t as int) == (self.cell_at(t as int) == barrel_of(
                        player.opponent(),
                    )));
                    assert(on(self.pail_mask_of(player.opponent()), t as int) == (self.cell_at(t as int) == pail_of(
                        player.opponent(),
                    )));
                }
            }
            if nearer && (obstacles >> (t as u64)) & 1 == 1 {
                return false;
            }
            proof {
                assert forall|u: int|
                    on_board(u) && col_of(u) == col && row_of(u) < k + 1 && ahead(player, u, s as int) implies !hostile(
                    #[trigger] cells[u],
                    player,
                ) by {
                    if row_of(u) == k {
                        assert(u == t);
                    }
                }
            }
            k = k + 1;
        }
        true
    }

    /// Content that a side jumps over.
    fn can_jump_over(&self, s: usize, player: Player) -> (r: bool)
        requires
            self.inv(),
            s < 36,
        ensures
            r == jumpable(self@.cells[s as int], player),
    {
        broadcast use crate::bits::group_has;

        let over: u64 = self.all_barrels() | self.pail(player);
        proof {
            self.lemma_square(s as int);
            assert(self@.cells[s as int] == self.cell_at(s as int));
            assert(on(self.pail_mask_of(player), s as int) == (self.cell_at(s as int) == pail_of(player)));
            assert(on(over, s as int) == (on(self.white_barrels, s as int) || on(self.black_barrels, s as int) || on(
                self.pail_mask_of(player),
                s as int,
            )));
        }
        (over >> (s as u64)) & 1 == 1
    }

    /// In one direction: the neighbour is empty, it is empty and ahead, a jump
    /// leads ahead.
    fn direction_freedom(&self, s: usize, d: usize, player: Player) -> (r: (bool, bool, bool))
        requires
            self.inv(),
            s < 36,
            d < 8,
        ensures
            r.0 == free_dir(self@.cells, s as int, d as int),
            r.1 == (free_dir(self@.cells, s as int, d as int) && ahead(player, ray(s as int, d as int, 1), s as int)),
            r.2 == (hop(self@.cells, player, s as int, d as int) && ahead(player, ray(s as int, d as int, 2), s as int)),
    {
        proof {
            lemma_tables(s as int);
        }
        let row: usize = s / BOARD_SIZE;
        let over: i8 = JUMP_OVER[s][d];
        let landing: i8 = JUMP_LANDING[s][d];
        if over < 0 {
            assert(ray(s as int, d as int, 2) < 0);
            return (false, false, false);
        }
        let o: usize = over as usize;
        proof {
            let r = row_of(s as int) + crate::squares::dir_row(d as int);
            let c = col_of(s as int) + crate::squares::dir_col(d as int);
            assert(row_of(6 * r + c) == r);
            assert(on_board(o as int));
        }
        let free: bool = self.is_empty_square(o);
        let free_ahead: bool = free && match player {
            Player::White => o / BOARD_SIZE < row,
            Player::Black => o / BOARD_SIZE > row,
        };
        if landing < 0 {
            return (free, free_ahead, false);
        }
        let l: usize = landing as usize;
        proof {
            lemma_ray(s as int, d as int);
        }
        let jump_ahead: bool = self.can_jump_over(o, player) && self.is_empty_square(l) && match player {
            Player::White => l / BOARD_SIZE < row,
            Player::Black => l / BOARD_SIZE > row,
        };
        (free, free_ahead, jump_ahead)
    }

    /// Whether the barrel is trapped, its empty neighbours ahead and its jumps
    /// ahead.
    fn barrel_freedom(&self, s: usize, player: Player) -> (r: (bool, i32, i32))
        requires
            self.inv(),
            s < 36,
        ensures
            r.0 == is_trapped(self@.cells, s as int),
            r.1 == mobility_of(self@.cells, player, s as int, 8),
            r.2 == jumps_of(self@.cells, player, s as int, 8),
            r.1 <= 8,
            r.2 <= 8,
    {
        let ghost cells = self@.cells;
        let mut trapped: bool = true;
        let mut mobility: i32 = 0;
        let mut jumps: i32 = 0;
        let mut d: usize = 0;
        while d < NUM_JUMP_DIRS
            invariant
                self.inv(),
                s < 36,
                cells == self@.cells,
                d <= 8,
                trapped == forall|e: int| 0 <= e < d ==> !#[trigger] free_dir(cells, s as int, e),
                mobility == mobility_of(cells, player, s as int, d as nat),
                jumps == jumps_of(cells, player, s as int, d as nat),
                0 <= mobility <= d,
                0 <= jumps <= d,
            decreases 8 - d,
        {
            let (free, free_ahead, jump_ahead): (bool, bool, bool) = self.direction_freedom(s, d, player);
            if free {
                assert(free_dir(cells, s as int, d as int));
                trapped = false;
            }
            if free_ahead {
                mobility = mobility + 1;
            }
            if jump_ahead {
                jumps = jumps + 1;
            }
            d = d + 1;
        }
        (trapped, mobility, jumps)
    }

    /// What the barrels of one side add up to.
    pub fn side_terms(&self, player: Player) -> (r: SideTerms)
        requires
            self.inv(),
        ensures
            terms_below(r, self@.cells, player, 36),
            terms_bounded(r, barrels_on(self@.cells, player, 36) as int),
    {
        let ghost cells = self@.cells;
        let mask: u64 = self.barrels(player);
        let mut r = SideTerms { progress: 0, threats: 0, threats2: 0, passed: 0, trapped: 0, mobility: 0, jumps: 0 };
        let mut s: usize = 0;
        while s < 36
            invariant
                self.inv(),
                cells == self@.cells,
                mask == self.barrels_of(player),
                s <= 36,
                terms_below(r, cells, player, s as nat),
                terms_bounded(r, barrels_on(cells, player, s as nat) as int),
                barrels_on(cells, player, s as nat) <= s,
            decreases 36 - s,
        {
            proof {
                self.lemma_square(s as int);
                assert(cells[s as int] == self.cell_at(s as int));
                assert(on(self.barrels_of(player), s as int) == (self.cell_at(s as int) == barrel_of(player)));
            }
            if (mask >> (s as u64)) & 1 == 1 {
                let row: usize = s / BOARD_SIZE;
                let dist: i32 = match player {
                    Player::White => row as i32,
                    Player::Black => (BOARD_SIZE - 1 - row) as i32,
                };
                let passed: bool = self.barrel_passed(s, player);
                let (trapped, mobility, jumps): (bool, i32, i32) = self.barrel_freedom(s, player);
                r = SideTerms {
                    progress: r.progress + (5 - dist),
                    threats: r.threats + if dist == 1 { 1 } else { 0 },
                    threats2: r.threats2 + if dist == 2 { 1 } else { 0 },
                    passed: r.passed + if passed { 1 } else { 0 },
                    trapped: r.trapped + if trapped { 1 } else { 0 },
                    mobility: r.mobility + mobility,
                    jumps: r.jumps + jumps,
                };
            }
            s = s + 1;
        }
        r
    }
}

/// The first square from `s` on that holds the pail of `p`, -1 for none.
pub open spec fn pail_from(cells: Seq<Cell>, p: Player, s: int) -> int
    decreases 36 - s,
{
    if s >= 36 {
        -1
    } else if cells[s] == pail_of(p) {
        s
    } else {
        pail_from(cells, p, s + 1)
    }
}

pub(crate) proof fn lemma_pail_from(cells: Seq<Cell>, p: Player, s: int, q: int)
    requires
        s <= q < 36,
        cells[q] == pail_of(p),
        forall|t: int| s <= t < q ==> cells[t] != pail_of(p),
    ensures
        pail_from(cells, p, s) == q,
    decreases q - s,
{
    if s < q {
        lemma_pail_from(cells, p, s + 1, q);
    }
}

pub(crate) proof fn lemma_no_pail(cells: Seq<Cell>, p: Player, s: int)
    requires
        forall|t: int| s <= t < 36 ==> cells[t] != pail_of(p),
    ensures
        pail_from(cells, p, s) == -1,
    decreases 36 - s,
{
    if s < 36 {
        lemma_no_pail(cells, p, s + 1);
    }
}

pub open spec fn abs_of(x: int) -> int {
    if x < 0 {
        -x
    } else {
        x
    }
}

/// The square a pail is drawn to, by row and column.
pub open spec fn pail_center(p: Player) -> int {
    match p {
        Player::White => 2,
        Player::Black => 3,
    }
}

/// What a pail on `q` earns against the enemy barrels below square `n`: the
/// full bonus ahead in the same column, the partial one ahead in the next.
pub open spec fn blocking_sum(w: EvalWeights, cells: Seq<Cell>, p: Player, q: int, n: nat) -> int
    decreases n,
{
    if n == 0 {
        0
    } else {
        blocking_sum(w, cells, p, q, (n - 1) as nat) + if cells[n - 1] != barrel_of(p.opponent()) || !ahead(
            p.opponent(),
            q,
            n - 1,
        ) {
            0
        } else if col_of(q) == col_of(n - 1) {
            w.blocking as int
        } else if abs_of(col_of(q) - col_of(n - 1)) == 1 {
            w.adj_blocking as int
        } else {
            0
        }
    }
}

/// What the pail of `p` is worth to it.
pub open spec fn pail_score(w: EvalWeights, cells: Seq<Cell>, p: Player) -> int {
    let q = pail_from(cells, p, 0);
    if q < 0 {
        0
    } else {
        (6 - (abs_of(row_of(q) - pail_center(p)) + abs_of(col_of(q) - pail_center(p)))) * w.center_pail + blocking_sum(
            w,
            cells,
            p,
            q,
            36,
        )
    }
}

/// Extra credit for barrels home: none for the first, one for two, three for
/// three.
pub open spec fn accel(scored: int) -> int {
    if scored <= 1 {
        0
    } else if scored == 2 {
        1
    } else {
        3
    }
}

/// Division by four that drops the fraction.
pub open spec fn quarter(x: int) -> int {
    if x >= 0 {
        x / 4
    } else {
        -((-x) / 4)
    }
}

/// The evaluation of an undecided position with race distances `wd` and `bd`.
pub open spec fn heuristic_sum(w: EvalWeights, s: GameState, wd: int, bd: int) -> int {
    let c = s.cells;
    let threats = at_dist_sum(c, Player::White, 1, 36) - at_dist_sum(c, Player::Black, 1, 36);
    (s.white_scored - s.black_scored) * w.scored + (accel(s.white_scored) - accel(s.black_scored)) * w.score_accel + (
    progress_sum(c, Player::White, 36) - progress_sum(c, Player::Black, 36)) * w.progress + threats * w.threat + (
    at_dist_sum(c, Player::White, 2, 36) - at_dist_sum(c, Player::Black, 2, 36)) * w.threat2 + (mobility_sum(
        c,
        Player::White,
        36,
    ) - mobility_sum(c, Player::Black, 36)) * w.mobility + (passed_sum(c, Player::White, 36) - passed_sum(
        c,
        Player::Black,
        36,
    )) * w.passed - (trapped_sum(c, Player::White, 36) - trapped_sum(c, Player::Black, 36)) * w.trapped + (jumps_sum(
        c,
        Player::White,
        36,
    ) - jumps_sum(c, Player::Black, 36)) * w.jump + quarter(
        threats * w.eg_threat * (s.white_scored + s.black_scored),
    ) + pail_score(w, c, Player::White) - pail_score(w, c, Player::Black) + (bd - wd) * w.race
}

/// A finished game counts as a fixed win; anything else as the weighted sum.
pub open spec fn heuristic(w: EvalWeights, s: GameState, wd: int, bd: int) -> int {
    match s.winner() {
        Some(Player::White) => 100_000,
        Some(Player::Black) => -100_000,
        None => heuristic_sum(w, s, wd, bd),
    }
}

/// No evaluation exceeds this.
pub const EVAL_LIMIT: i32 = 700_000_000;

proof fn lemma_weigh(n: int, w: i32, k: int)
    requires
        -k <= n <= k,
    ensures
        -(k * size(w)) <= n * w <= k * size(w),
{
    reveal(size);
    let b = w as int;
    let c = size(w);
    assert(-(k * c) <= n * b <= k * c) by (nonlinear_arith)
        requires
            -k <= n <= k,
            c == b || c == -b,
            c >= 0,
    ;
}

fn weigh(n: i32, w: i32, Ghost(k): Ghost<int>) -> (r: i32)
    requires
        -k <= n <= k,
        k * size(w) <= EVAL_LIMIT,
    ensures
        r == n * w,
        -(k * size(w)) <= r <= k * size(w),
{
    proof {
        lemma_weigh(n as int, w, k);
    }
    n * w
}

fn quarter_of(x: i32) -> (r: i32)
    requires
        x > i32::MIN,
    ensures
        r == quarter(x as int),
{
    if x >= 0 {
        x / 4
    } else {
        -((-x) / 4)
    }
}

fn accel_of(scored: u8) -> (r: i32)
    ensures
        r == accel(scored as int),
        0 <= r <= 3,
{
    if scored <= 1 {
        0
    } else if scored == 2 {
        1
    } else {
        3
    }
}

impl EvalWeights {
    /// What a pail on `q` earns against the enemy barrels.
    fn blocking(&self, bb: &BitBoard, player: Player, q: usize) -> (r: i32)
        requires
            self.ok(),
            bb.inv(),
            q < 36,
            barrels_on(bb@.cells, player.opponent(), 36) <= 4,
        ensures
            r == blocking_sum(*self, bb@.cells, player, q as int, 36),
            -4 * (size(self.blocking) + size(self.adj_blocking)) <= r <= 4 * (size(self.blocking) + size(
                self.adj_blocking,
            )),
    {
        let ghost cells = bb@.cells;
        let ghost most = size(self.blocking) + size(self.adj_blocking);
        proof {
            lemma_sizes(*self);
            reveal(size);
        }
        let enemy: Player = player.opponent();
        let mask: u64 = bb.barrels(enemy);
        let row: usize = q / BOARD_SIZE;
        let col: usize = q % BOARD_SIZE;
        let mut bonus: i32 = 0;
        let mut s: usize = 0;
        while s < 36
            invariant
                self.ok(),
                bb.inv(),
                q < 36,
                cells == bb@.cells,
                enemy == player.opponent(),
                mask == bb.barrels_of(enemy),
                row == row_of(q as int),
                col == col_of(q as int),
                s <= 36,
                bonus == blocking_sum(*self, cells, player, q as int, s as nat),
                4 * most <= EVAL_LIMIT,
                -(barrels_on(cells, enemy, s as nat) * most) <= bonus <= barrels_on(cells, enemy, s as nat) * most,
                most == size(self.blocking) + size(self.adj_blocking),
                most >= 0,
                -most <= self.blocking <= most,
                -most <= self.adj_blocking <= most,
                barrels_on(cells, enemy, 36) <= 4,
            decreases 36 - s,
        {
            proof {
                bb.lemma_square(s as int);
                assert(cells[s as int] == bb.cell_at(s as int));
                assert(on(bb.barrels_of(enemy), s as int) == (bb.cell_at(s as int) == barrel_of(enemy)));
                lemma_barrels_monotone(cells, enemy, (s + 1) as nat, 36);
                let k = barrels_on(cells, enemy, s as nat);
                assert((k + 1) * most == k * most + most) by (nonlinear_arith);
                if barrels_on(cells, enemy, (s + 1) as nat) == k + 1 {
                    assert((k + 1) * most <= 4 * most) by (nonlinear_arith)
                        requires
                            k + 1 <= 4,
                            most >= 0,
                    ;
                }
            }
            if (mask >> (s as u64)) & 1 == 1 {
                let (t_row, t_col): (usize, usize) = (s / BOARD_SIZE, s % BOARD_SIZE);
                let in_front: bool = match enemy {
                    Player::White => row < t_row,
                    Player::Black => row > t_row,
                };
                if in_front {
                    if col == t_col {
                        bonus = bonus + self.blocking;
                    } else if col + 1 == t_col || t_col + 1 == col {
                        bonus = bonus + self.adj_blocking;
                    }
                }
            }
            s = s + 1;
        }
        proof {
            let k = barrels_on(cells, enemy, 36) as int;
            assert(k * most <= 4 * most) by (nonlinear_arith)
                requires
                    0 <= k <= 4,
                    most >= 0,
            ;
        }
        bonus
    }

    /// What the pail of one side is worth to it.
    pub(crate) fn pail_value(&self, bb: &BitBoard, player: Player) -> (r: i32)
        requires
            self.ok(),
            bb.inv(),
            barrels_on(bb@.cells, player.opponent(), 36) <= 4,
        ensures
            r == pail_score(*self, bb@.cells, player),
            -self.pail_reach() <= r <= self.pail_reach(),
    {
        let ghost cells = bb@.cells;
        proof {
            lemma_sizes(*self);
        }
        let mask: u64 = bb.pail(player);
        proof {
            assert forall|s: int| 0 <= s < 36 implies on(mask, s) == (#[trigger] cells[s] == pail_of(player)) by {
                bb.lemma_square(s);
                assert(cells[s] == bb.cell_at(s));
                assert(on(bb.pail_mask_of(player), s) == (bb.cell_at(s) == pail_of(player)));
            }
            crate::bits::lemma_empty(mask);
        }
        if mask == 0 {
            proof {
                lemma_no_pail(cells, player, 0);
            }
            return 0;
        }
        let q: usize = lowest(mask);
        proof {
            bb.lemma_square(q as int);
            assert(on(bb.pail_mask_of(player), q as int));
            lemma_pail_from(cells, player, 0, q as int);
        }
        let center: i32 = match player {
            Player::White => 2,
            Player::Black => 3,
        };
        let row: i32 = (q / BOARD_SIZE) as i32;
        let col: i32 = (q % BOARD_SIZE) as i32;
        let row_dist: i32 = if row < center { center - row } else { row - center };
        let col_dist: i32 = if col < center { center - col } else { col - center };
        weigh(6 - (row_dist + col_dist), self.center_pail, Ghost(6)) + self.blocking(bb, player, q)
    }

    /// The evaluation of a game position.
    pub fn evaluate(&self, bb: &BitBoard, race: &RaceTable) -> (r: i32)
        requires
            self.ok(),
            bb.wf(),
            race.wf(),
        ensures
            r == heuristic_of(*self, *bb),
            race_pair(*bb, races_of(*bb).0, races_of(*bb).1),
            -EVAL_LIMIT <= r <= EVAL_LIMIT,
            bb@.winner() is None ==> -self.reach() <= r <= self.reach(),
    {
        let (wd, bd): (u16, u16) = race_distances(race, bb);
        proof {
            lemma_sizes(*self);
            crate::phase::lemma_barrels_popcount(*bb, Player::White);
            crate::phase::lemma_barrels_popcount(*bb, Player::Black);
        }
        if let Some(winner) = bb.check_winner() {
            return match winner {
                Player::White => 100_000,
                Player::Black => -100_000,
            };
        }
        let ws: i32 = bb.white_scored as i32;
        let bs: i32 = bb.black_scored as i32;
        let wt = bb.side_terms(Player::White);
        let bt = bb.side_terms(Player::Black);
        let s1: i32 = weigh(ws - bs, self.scored, Ghost(4)) + weigh(
            accel_of(bb.white_scored) - accel_of(bb.black_scored),
            self.score_accel,
            Ghost(3),
        );
        let s2: i32 = weigh(wt.progress - bt.progress, self.progress, Ghost(20)) + weigh(
            wt.threats - bt.threats,
            self.threat,
            Ghost(4),
        ) + weigh(wt.threats2 - bt.threats2, self.threat2, Ghost(4)) + weigh(
            wt.mobility - bt.mobility,
            self.mobility,
            Ghost(32),
        );
        let s3: i32 = weigh(wt.passed - bt.passed, self.passed, Ghost(4)) - weigh(
            wt.trapped - bt.trapped,
            self.trapped,
            Ghost(4),
        ) + weigh(wt.jumps - bt.jumps, self.jump, Ghost(32));
        let eg: i32 = weigh(wt.threats - bt.threats, self.eg_threat, Ghost(4));
        proof {
            let a = eg as int;
            let b = ws + bs;
            let c = size(self.eg_threat);
            assert(-(32 * c) <= a * b <= 32 * c) by (nonlinear_arith)
                requires
                    -(4 * c) <= a <= 4 * c,
                    0 <= b <= 8,
            ;
        }
        let s4: i32 = quarter_of(eg * (ws + bs));
        let s5: i32 = self.pail_value(bb, Player::White) - self.pail_value(bb, Player::Black);
        let s6: i32 = weigh(bd as i32 - wd as i32, self.race, Ghost(24));
        s1 + s2 + s3 + s4 + s5 + s6
    }
}

/// The race distances of the two sides.
pub open spec fn race_pair(bb: BitBoard, wd: u16, bd: u16) -> bool {
    &&& is_answer(bb.white_barrels, bb.white_barrels_off_board as int, wd)
    &&& forall|m: u64| #[trigger] flipped(m, bb.black_barrels) ==> is_answer(m, bb.black_barrels_off_board as int, bd)
}

/// The race distances of white and black.
pub open spec fn races_of(bb: BitBoard) -> (u16, u16) {
    choose|p: (u16, u16)| #[trigger] race_pair(bb, p.0, p.1)
}

/// Looks up the race distances of both sides of a game position.
pub(crate) fn race_distances(race: &RaceTable, bb: &BitBoard) -> (r: (u16, u16))
    requires
        bb.wf(),
        race.wf(),
    ensures
        r == races_of(*bb),
        race_pair(*bb, r.0, r.1),
        r.0 <= 24,
        r.1 <= 24,
{
    let wd: u16 = race.side_distance(bb, Player::White);
    let bd: u16 = race.side_distance(bb, Player::Black);
    proof {
        lemma_race_pair(*bb, wd, bd);
        let pair = (wd, bd);
        assert(race_pair(*bb, pair.0, pair.1));
        let (x, y) = races_of(*bb);
        lemma_race_pair_unique(*bb, x, y, wd, bd);
    }
    (wd, bd)
}

/// The evaluation of a board, its race distances those of its two sides.
pub open spec fn heuristic_of(w: EvalWeights, bb: BitBoard) -> int {
    heuristic(w, bb@, races_of(bb).0 as int, races_of(bb).1 as int)
}

proof fn lemma_barrels_monotone(cells: Seq<Cell>, p: Player, a: nat, b: nat)
    requires
        a <= b,
    ensures
        barrels_on(cells, p, a) <= barrels_on(cells, p, b),
    decreases b,
{
    if a < b {
        lemma_barrels_monotone(cells, p, a, (b - 1) as nat);
    }
}

/// Both sides of a game position are in race states.
proof fn lemma_race_states(bb: BitBoard) -> (m: u64)
    requires
        bb.wf(),
    ensures
        race_state(bb.white_barrels, bb.white_barrels_off_board as int),
        flipped(m, bb.black_barrels),
        race_state(m, bb.black_barrels_off_board as int),
{
    crate::phase::lemma_barrels_popcount(bb, Player::White);
    crate::phase::lemma_in_phase(
        (4 - bb.white_scored) as nat,
        (4 - bb.black_scored) as nat,
        bb,
    );
    let c = crate::symmetry::mirror_board(bb);
    crate::symmetry::law_mirror_wf(c, bb);
    crate::phase::lemma_barrels_popcount(c, Player::White);
    crate::phase::lemma_in_phase((4 - c.white_scored) as nat, (4 - c.black_scored) as nat, c);
    assert(c.white_barrels_off_board as int == bb@.black_off);
    assert forall|s: int| #[trigger] on(c.white_barrels, s) == (on_board(s) && on(
        bb.black_barrels,
        crate::mirror::flip(s),
    )) by {
        c.lemma_square(s);
        if on_board(s) {
            crate::symmetry::lemma_mirror_masks(c, bb, s);
        }
    }
    c.white_barrels
}

proof fn lemma_race_pair(bb: BitBoard, wd: u16, bd: u16)
    requires
        bb.wf(),
        race_pair(bb, wd, bd),
    ensures
        wd <= 24,
        bd <= 24,
{
    let m = lemma_race_states(bb);
    law_race_bound(bb.white_barrels, bb.white_barrels_off_board as int, wd);
    law_race_bound(m, bb.black_barrels_off_board as int, bd);
}

pub(crate) proof fn lemma_race_pair_unique(bb: BitBoard, a: u16, b: u16, c: u16, d: u16)
    requires
        bb.wf(),
        race_pair(bb, a, b),
        race_pair(bb, c, d),
    ensures
        a == c,
        b == d,
{
    let m = lemma_race_states(bb);
    crate::race::law_race_distance_unique(bb.white_barrels, bb.white_barrels_off_board as int, a, c);
    crate::race::law_race_distance_unique(m, bb.black_barrels_off_board as int, b, d);
}

} // verus!
