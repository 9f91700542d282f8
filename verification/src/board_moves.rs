//! Move generation on the grid, in coordinates.
use vstd::prelude::*;
use crate::board::{barrel_squares, path_squares, Board, Cell, Move, Player, Position};
use crate::listing::{found, gains, lemma_gains_nothing, lemma_gains_push, lemma_gains_same, lemma_gains_trans};
use crate::movegen::{is_pail, is_place, is_walk, is_walk_from, lemma_step_is_no_jump};
use crate::rules::{
    barrel_of, continues, hop, jump_chain, jump_ok, lemma_chain_empty, lemma_chain_jump, lemma_chain_len,
    lemma_chain_prefix, lemma_chain_push, lemma_ray_injective, pail_of, start_row, stop, Action, GameState,
};
use crate::squares::{adjacent, col_of, dir_col, dir_row, on_board, ray, row_of, BOARD_SIZE};

verus! {

/// Row and column steps of the eight directions, in the order in which the
/// grid is scanned.
const DIR_ROWS: [i8; 8] = [0, 0, 1, -1, 1, 1, -1, -1];

const DIR_COLS: [i8; 8] = [1, -1, 0, 0, 1, -1, 1, -1];

/// The direction of the jump tables that the scan's `i`th direction is.
spec fn scan_dir(i: int) -> int {
    if i < 4 {
        3 - i
    } else {
        11 - i
    }
}

proof fn lemma_scan_dir(i: int)
    requires
        0 <= i < 8,
    ensures
        0 <= scan_dir(i) < 8,
        DIR_ROWS@[i] == dir_row(scan_dir(i)),
        DIR_COLS@[i] == dir_col(scan_dir(i)),
        scan_dir(scan_dir(i)) == i,
{
    assert(i == 0 || i == 1 || i == 2 || i == 3 || i == 4 || i == 5 || i == 6 || i == 7);
}

/// The paths in a list, as square indices.
spec fn paths_of(paths: Seq<Vec<Position>>) -> Seq<Seq<int>> {
    Seq::new(paths.len(), |i: int| path_squares(paths[i]@))
}

spec fn paths_on_grid(paths: Seq<Vec<Position>>) -> bool {
    forall|i: int, j: int| 0 <= i < paths.len() && 0 <= j < paths[i]@.len() ==> (#[trigger] paths[i]@[j]).on_grid()
}

/// The actions in a list of moves.
pub open spec fn actions_of(moves: Seq<Move>) -> Seq<Action> {
    Seq::new(moves.len(), |i: int| moves[i]@)
}

/// Every move of the list can be played as a single action.
pub open spec fn all_single(moves: Seq<Move>) -> bool {
    forall|i: int| 0 <= i < moves.len() ==> (#[trigger] moves[i]).valid() && moves[i].single()
}

fn copy_path(path: &Vec<Position>) -> (r: Vec<Position>)
    ensures
        r@ == path@,
{
    let mut r: Vec<Position> = Vec::new();
    let mut i: usize = 0;
    while i < path.len()
        invariant
            i <= path@.len(),
            r@ == path@.subrange(0, i as int),
        decreases path@.len() - i,
    {
        r.push(path[i]);
        i = i + 1;
        assert(r@ =~= path@.subrange(0, i as int));
    }
    assert(r@ =~= path@);
    r
}

/// A chain that leaves `path`, which stands on `at`, in a scan direction below `n`.
spec fn leaves_by(at: int, path: Seq<int>, n: int, q: Seq<int>) -> bool {
    exists|g: int| 0 <= g < n && #[trigger] ray(at, scan_dir(g), 2) == q[path.len() as int]
}

/// Continuing `path` by `x` is being `path.push(x)` or continuing that.
proof fn lemma_continue_by(q: Seq<int>, path: Seq<int>, x: int)
    ensures
        (continues(q, path) && q[path.len() as int] == x) == (q == path.push(x) || continues(q, path.push(x))),
{
    let c = path.push(x);
    let n = path.len() as int;
    if continues(q, path) && q[n] == x {
        assert forall|i: int| 0 <= i < n implies q[i] == path[i] by {
            assert(q.subrange(0, n)[i] == q[i]);
        }
        assert(q.subrange(0, n + 1) =~= c);
        if q.len() == n + 1 {
            assert(q =~= c);
        }
    }
    if q == c {
        assert(q.subrange(0, n) =~= path);
    }
    if continues(q, c) {
        assert forall|i: int| 0 <= i <= n implies q[i] == c[i] by {
            assert(q.subrange(0, n + 1)[i] == q[i]);
        }
        assert(q.subrange(0, n) =~= path);
    }
}

/// A chain that continues `path` in a scan direction below `n`.
spec fn continues_by(cells: Seq<Cell>, p: Player, f: int, path: Seq<int>, n: int, q: Seq<int>) -> bool {
    jump_chain(cells, p, f, q) && continues(q, path) && leaves_by(stop(f, path, path.len() as int), path, n, q)
}

/// Direction `i` leads to `x`: the chains that continue by it are the chain
/// ending on `x` and those that continue from there.
proof fn lemma_direction_jumps(cells: Seq<Cell>, p: Player, f: int, path: Seq<int>, i: int, q: Seq<int>)
    requires
        0 <= i < 8,
        on_board(stop(f, path, path.len() as int)),
        ray(stop(f, path, path.len() as int), scan_dir(i), 2) >= 0,
        jump_chain(cells, p, f, path.push(ray(stop(f, path, path.len() as int), scan_dir(i), 2))),
    ensures
        ({
            let c = path.push(ray(stop(f, path, path.len() as int), scan_dir(i), 2));
            &&& continues_by(cells, p, f, path, i + 1, q) == (continues_by(cells, p, f, path, i, q) || q == c || (
            jump_chain(cells, p, f, q) && continues(q, c)))
            &&& q == c ==> !continues_by(cells, p, f, path, i, q) && !continues(q, c)
            &&& continues(q, c) ==> !continues_by(cells, p, f, path, i, q)
        }),
{
    let at = stop(f, path, path.len() as int);
    let x = ray(at, scan_dir(i), 2);
    let n = path.len() as int;
    lemma_scan_dir(i);
    lemma_continue_by(q, path, x);
    if leaves_by(at, path, i + 1, q) && !leaves_by(at, path, i, q) {
        let g = choose|g: int| 0 <= g < i + 1 && #[trigger] ray(at, scan_dir(g), 2) == q[n];
        assert(g == i);
    }
    if q.len() > n && q[n] == x {
        assert(ray(at, scan_dir(i), 2) == q[n]);
        assert(leaves_by(at, path, i + 1, q));
        if leaves_by(at, path, i, q) {
            let g = choose|g: int| 0 <= g < i && #[trigger] ray(at, scan_dir(g), 2) == q[n];
            lemma_scan_dir(g);
            lemma_ray_injective(at, scan_dir(g), scan_dir(i));
        }
    }
    if leaves_by(at, path, i, q) {
        let g = choose|g: int| 0 <= g < i && #[trigger] ray(at, scan_dir(g), 2) == q[n];
        assert(0 <= g < i + 1 && ray(at, scan_dir(g), 2) == q[n]);
    }
}

/// No jump is possible in direction `i`: no chain continues by it.
proof fn lemma_direction_blocked(cells: Seq<Cell>, p: Player, f: int, path: Seq<int>, i: int, q: Seq<int>)
    requires
        0 <= i < 8,
        on_board(stop(f, path, path.len() as int)),
        ({
            let at = stop(f, path, path.len() as int);
            let x = ray(at, scan_dir(i), 2);
            !(hop(cells, p, at, scan_dir(i)) && !path.contains(x) && x != f)
        }),
    ensures
        continues_by(cells, p, f, path, i + 1, q) == continues_by(cells, p, f, path, i, q),
{
    let at = stop(f, path, path.len() as int);
    let x = ray(at, scan_dir(i), 2);
    let n = path.len() as int;
    lemma_scan_dir(i);
    if continues_by(cells, p, f, path, i + 1, q) && !leaves_by(at, path, i, q) {
        let g = choose|g: int| 0 <= g < i + 1 && #[trigger] ray(at, scan_dir(g), 2) == q[n];
        assert(g == i);
        lemma_continue_by(q, path, x);
        lemma_chain_prefix(cells, p, f, q, n + 1);
        assert(q.subrange(0, n + 1) =~= path.push(x)) by {
            assert forall|k: int| 0 <= k < n implies q[k] == path[k] by {
                assert(q.subrange(0, n)[k] == q[k]);
            }
        }
        lemma_chain_push(cells, p, f, path, x);
        let h = choose|h: int| 0 <= h < 8 && #[trigger] ray(at, h, 2) == x && hop(cells, p, at, h);
        lemma_ray_injective(at, h, scan_dir(i));
    }
    if leaves_by(at, path, i, q) {
        let g = choose|g: int| 0 <= g < i && #[trigger] ray(at, scan_dir(g), 2) == q[n];
        assert(0 <= g < i + 1 && ray(at, scan_dir(g), 2) == q[n]);
    }
}

/// Every chain that continues `path` does so in one of the eight directions.
proof fn lemma_all_directions(cells: Seq<Cell>, p: Player, f: int, path: Seq<int>, q: Seq<int>)
    requires
        jump_chain(cells, p, f, q),
        continues(q, path),
    ensures
        continues_by(cells, p, f, path, 8, q),
{
    let n = path.len() as int;
    let at = stop(f, path, n);
    lemma_chain_jump(cells, p, f, q, n);
    assert(stop(f, q, n) == at) by {
        if n > 0 {
            assert(q.subrange(0, n)[n - 1] == q[n - 1]);
        }
    }
    let h = choose|h: int| 0 <= h < 8 && #[trigger] ray(at, h, 2) == q[n] && hop(cells, p, at, h);
    lemma_scan_dir(h);
    let g = scan_dir(h);
    assert(ray(at, scan_dir(g), 2) == q[n]);
}

proof fn lemma_visited_push(path: Seq<int>, x: int, s: int)
    ensures
        path.push(x).contains(s) == (path.contains(s) || s == x),
{
    let c = path.push(x);
    assert(c[path.len() as int] == x);
    if path.contains(s) {
        let k = choose|k: int| 0 <= k < path.len() && path[k] == s;
        assert(c[k] == s);
    }
    if c.contains(s) && s != x {
        let k = choose|k: int| 0 <= k < c.len() && c[k] == s;
        assert(path[k] == s);
    }
}

proof fn lemma_grid_push(paths: Seq<Vec<Position>>, v: Vec<Position>)
    requires
        paths_on_grid(paths),
        forall|k: int| 0 <= k < v@.len() ==> (#[trigger] v@[k]).on_grid(),
    ensures
        paths_on_grid(paths.push(v)),
        paths_of(paths.push(v)) == paths_of(paths).push(path_squares(v@)),
{
    let all = paths.push(v);
    assert forall|a: int, b: int| 0 <= a < all.len() && 0 <= b < all[a]@.len() implies (#[trigger] all[a]@[b]).on_grid() by {
        if a < paths.len() {
            assert(all[a] == paths[a]);
            assert(paths[a]@[b].on_grid());
        }
    }
    assert(paths_of(all) =~= paths_of(paths).push(path_squares(v@)));
}

impl Board {
    /// Appends every chain of jumps that continues `current_path`.
    #[verifier::rlimit(40)]
    #[verifier::spinoff_prover]
    fn find_jump_sequences(
        &self,
        from: Position,
        current: Position,
        player: Player,
        visited: &mut Vec<bool>,
        current_path: &mut Vec<Position>,
        all_paths: &mut Vec<Vec<Position>>,
    )
        requires
            from.on_grid(),
            current.on_grid(),
            current.sq() == stop(from.sq(), path_squares(old(current_path)@), old(current_path)@.len() as int),
            jump_chain(self@.cells, player, from.sq(), path_squares(old(current_path)@)),
            forall|i: int| 0 <= i < old(current_path)@.len() ==> (#[trigger] old(current_path)@[i]).on_grid(),
            old(visited)@.len() == 36,
            forall|s: int|
                0 <= s < 36 ==> #[trigger] old(visited)@[s] == (s == from.sq() || path_squares(
                    old(current_path)@,
                ).contains(s)),
            paths_on_grid(old(all_paths)@),
        ensures
            final(visited)@ == old(visited)@,
            final(current_path)@ == old(current_path)@,
            paths_on_grid(final(all_paths)@),
            gains(
                paths_of(old(all_paths)@),
                paths_of(final(all_paths)@),
                |q: Seq<int>|
                    jump_chain(self@.cells, player, from.sq(), q) && continues(q, path_squares(old(current_path)@)),
            ),
        decreases 9 - old(current_path)@.len(),
    {
        let ghost cells = self@.cells;
        let ghost f = from.sq();
        let ghost path = path_squares(current_path@);
        let ghost at = current.sq();
        let ghost positions = current_path@;
        let ghost seen = visited@;
        let ghost base = paths_of(all_paths@);
        let opponent_pail: Cell = match player {
            Player::White => Cell::BlackPail,
            Player::Black => Cell::WhitePail,
        };
        proof {
            lemma_chain_len(cells, player, f, path);
            lemma_gains_nothing(base, |q: Seq<int>| continues_by(cells, player, f, path, 0, q));
        }
        let mut i: usize = 0;
        while i < 8
            invariant
                i <= 8,
                cells == self@.cells,
                f == from.sq(),
                from.on_grid(),
                current.on_grid(),
                at == current.sq(),
                positions == current_path@,
                seen == visited@,
                path == path_squares(positions),
                path.len() <= 8,
                old(current_path)@.len() == path.len(),
                at == stop(f, path, path.len() as int),
                jump_chain(cells, player, f, path),
                forall|k: int| 0 <= k < positions.len() ==> (#[trigger] positions[k]).on_grid(),
                seen.len() == 36,
                forall|s: int| 0 <= s < 36 ==> #[trigger] seen[s] == (s == f || path.contains(s)),
                opponent_pail == pail_of(player.opponent()),
                paths_on_grid(all_paths@),
                gains(base, paths_of(all_paths@), |q: Seq<int>| continues_by(cells, player, f, path, i as int, q)),
            decreases 8 - i,
        {
            proof {
                lemma_scan_dir(i as int);
            }
            let ghost d = scan_dir(i as int);
            let dr: i8 = DIR_ROWS[i];
            let dc: i8 = DIR_COLS[i];
            let over = Position::new(current.row + dr, current.col + dc);
            let landing = Position::new(current.row + 2 * dr, current.col + 2 * dc);
            let ghost x = ray(at, d, 2);
            let ghost k1 = |q: Seq<int>| continues_by(cells, player, f, path, i as int, q);
            let ghost k3 = |q: Seq<int>| continues_by(cells, player, f, path, i as int + 1, q);
            let ghost c = path.push(x);
            let ghost list1 = paths_of(all_paths@);
            let jumps: bool = self.can_jump(over, landing, opponent_pail) && !visited[landing.index()];
            proof {
                self.lemma_can_jump(current, player, d);
                assert(jumps == (hop(cells, player, at, d) && !path.contains(x) && x != f));
            }
            if jumps {
                proof {
                    assert(jump_ok(cells, player, at, x));
                    lemma_chain_push(cells, player, f, path, x);
                    lemma_chain_len(cells, player, f, c);
                }
                visited.set(landing.index(), true);
                current_path.push(landing);
                assert(path_squares(current_path@) =~= c);
                let copy = copy_path(current_path);
                proof {
                    lemma_grid_push(all_paths@, copy);
                }
                all_paths.push(copy);
                let ghost list2 = paths_of(all_paths@);
                let ghost k2 = |q: Seq<int>| continues_by(cells, player, f, path, i as int, q) || q == c;
                proof {
                    lemma_direction_jumps(cells, player, f, path, i as int, c);
                    lemma_gains_push(base, list1, k1, c, k2);
                    assert forall|s: int| 0 <= s < 36 implies #[trigger] visited@[s] == (s == f || c.contains(s)) by {
                        lemma_visited_push(path, x, s);
                    }
                }
                self.find_jump_sequences(from, landing, player, visited, current_path, all_paths);
                proof {
                    let kr = |q: Seq<int>| jump_chain(self@.cells, player, from.sq(), q) && continues(q, c);
                    lemma_gains_same(
                        list2,
                        paths_of(all_paths@),
                        |q: Seq<int>|
                            jump_chain(self@.cells, player, from.sq(), q) && continues(q, path_squares(positions.push(landing))),
                        kr,
                    );
                    assert forall|q: Seq<int>| #[trigger] k3(q) == (k2(q) || kr(q)) by {
                        lemma_direction_jumps(cells, player, f, path, i as int, q);
                    }
                    assert forall|q: Seq<int>| !(#[trigger] k2(q) && kr(q)) by {
                        lemma_direction_jumps(cells, player, f, path, i as int, q);
                    }
                    lemma_gains_trans(base, list2, paths_of(all_paths@), k2, kr, k3);
                }
                current_path.pop();
                visited.set(landing.index(), false);
                proof {
                    assert(current_path@ =~= positions);
                    assert(visited@ =~= seen);
                }
            } else {
                proof {
                    assert forall|q: Seq<int>| #[trigger] k1(q) == k3(q) by {
                        lemma_direction_blocked(cells, player, f, path, i as int, q);
                    }
                    lemma_gains_same(base, list1, k1, k3);
                }
            }
            i = i + 1;
        }
        proof {
            let k1 = |q: Seq<int>| continues_by(cells, player, f, path, 8, q);
            let k2 = |q: Seq<int>|
                jump_chain(self@.cells, player, from.sq(), q) && continues(q, path_squares(old(current_path)@));
            assert forall|q: Seq<int>| #[trigger] k1(q) == k2(q) by {
                if k2(q) {
                    lemma_all_directions(cells, player, f, path, q);
                }
            }
            lemma_gains_same(base, paths_of(all_paths@), k1, k2);
        }
    }

    /// Both squares are on the board, the first holds something to jump over
    /// and the second is empty.
    fn can_jump(&self, over: Position, landing: Position, opponent_pail: Cell) -> (r: bool)
        ensures
            r == self.jump_fits(over, landing, opponent_pail),
    {
        if over.is_valid() && landing.is_valid() {
            let over_cell: Cell = self.cell(over.index());
            let landing_cell: Cell = self.cell(landing.index());
            let can_jump_over: bool = over_cell.is_barrel() || over_cell.is_pail();
            can_jump_over && over_cell != opponent_pail && landing_cell == Cell::Empty
        } else {
            false
        }
    }

    spec fn jump_fits(&self, over: Position, landing: Position, opponent_pail: Cell) -> bool {
        &&& over.on_grid()
        &&& landing.on_grid()
        &&& self@.cells[over.sq()] != Cell::Empty
        &&& self@.cells[over.sq()] != opponent_pail
        &&& self@.cells[landing.sq()] == Cell::Empty
    }

    proof fn lemma_can_jump(&self, current: Position, player: Player, d: int)
        requires
            current.on_grid(),
            0 <= d < 8,
        ensures
            ({
                let over = Position { row: (current.row + dir_row(d)) as i8, col: (current.col + dir_col(d)) as i8 };
                let landing = Position {
                    row: (current.row + 2 * dir_row(d)) as i8,
                    col: (current.col + 2 * dir_col(d)) as i8,
                };
                &&& self.jump_fits(over, landing, pail_of(player.opponent())) == hop(
                    self@.cells,
                    player,
                    current.sq(),
                    d,
                )
                &&& landing.on_grid() ==> landing.sq() == ray(current.sq(), d, 2)
                &&& ray(current.sq(), d, 2) >= 0 ==> on_board(ray(current.sq(), d, 2))
            }),
    {
        let at = current.sq();
        assert(row_of(at) == current.row && col_of(at) == current.col);
    }
}

/// A neighbour is what one step in some direction reaches.
proof fn lemma_adjacent_ray(a: int, b: int)
    requires
        on_board(a),
        on_board(b),
    ensures
        adjacent(a, b) == exists|g: int| 0 <= g < 8 && #[trigger] ray(a, scan_dir(g), 1) == b,
{
    if adjacent(a, b) {
        let dr = row_of(b) - row_of(a);
        let dc = col_of(b) - col_of(a);
        let g: int = if dr == 0 {
            if dc == 1 { 0 } else { 1 }
        } else if dc == 0 {
            if dr == 1 { 2 } else { 3 }
        } else if dr == 1 {
            if dc == 1 { 4 } else { 5 }
        } else {
            if dc == 1 { 6 } else { 7 }
        };
        lemma_scan_dir(g);
        assert(ray(a, scan_dir(g), 1) == b);
    }
    if exists|g: int| 0 <= g < 8 && #[trigger] ray(a, scan_dir(g), 1) == b {
        let g = choose|g: int| 0 <= g < 8 && #[trigger] ray(a, scan_dir(g), 1) == b;
        lemma_scan_dir(g);
        let r = row_of(a) + dir_row(scan_dir(g));
        let c = col_of(a) + dir_col(scan_dir(g));
        assert(row_of(6 * r + c) == r && col_of(6 * r + c) == c);
    }
}

/// One step in distinct directions reaches distinct squares.
proof fn lemma_step_injective(a: int, g: int, h: int)
    requires
        on_board(a),
        0 <= g < 8,
        0 <= h < 8,
        ray(a, scan_dir(g), 1) >= 0,
        ray(a, scan_dir(g), 1) == ray(a, scan_dir(h), 1),
    ensures
        g == h,
{
    lemma_scan_dir(g);
    lemma_scan_dir(h);
}

/// A one-square path to an empty neighbour in a scan direction below `n`.
spec fn steps_by(st: GameState, f: int, n: int, q: Seq<int>) -> bool {
    q.len() == 1 && st.step_ok(f, q[0]) && exists|g: int| 0 <= g < n && #[trigger] ray(f, scan_dir(g), 1) == q[0]
}

/// The paths a barrel of `p` on `f` can walk.
pub open spec fn walks_of(st: GameState, p: Player, f: int, q: Seq<int>) -> bool {
    ||| q.len() == 1 && st.step_ok(f, q[0])
    ||| q.len() >= 1 && jump_chain(st.cells, p, f, q)
}

proof fn lemma_steps_next(st: GameState, f: int, i: int, q: Seq<int>)
    requires
        on_board(f),
        0 <= i < 8,
    ensures
        ({
            let x = ray(f, scan_dir(i), 1);
            let fits = x >= 0 && st.cells[x] == Cell::Empty;
            &&& steps_by(st, f, i + 1, q) == (steps_by(st, f, i, q) || (fits && q == seq![x]))
            &&& fits ==> !steps_by(st, f, i, seq![x])
        }),
{
    let x = ray(f, scan_dir(i), 1);
    lemma_scan_dir(i);
    let r = row_of(f) + dir_row(scan_dir(i));
    let c = col_of(f) + dir_col(scan_dir(i));
    if x >= 0 {
        assert(row_of(6 * r + c) == r && col_of(6 * r + c) == c);
        assert(on_board(x));
        assert(ray(f, scan_dir(i), 1) == x);
        lemma_adjacent_ray(f, x);
        if steps_by(st, f, i, seq![x]) {
            let g = choose|g: int| 0 <= g < i && #[trigger] ray(f, scan_dir(g), 1) == seq![x][0];
            lemma_step_injective(f, i, g);
        }
    }
    if steps_by(st, f, i + 1, q) && !steps_by(st, f, i, q) {
        let g = choose|g: int| 0 <= g < i + 1 && #[trigger] ray(f, scan_dir(g), 1) == q[0];
        assert(g == i);
        assert(q =~= seq![x]);
    }
    if steps_by(st, f, i, q) {
        let g = choose|g: int| 0 <= g < i && #[trigger] ray(f, scan_dir(g), 1) == q[0];
        assert(0 <= g < i + 1 && ray(f, scan_dir(g), 1) == q[0]);
    }
    if x >= 0 && st.cells[x] == Cell::Empty && q == seq![x] {
        assert(ray(f, scan_dir(i), 1) == q[0]);
    }
}

impl Board {
    /// The paths a barrel of `player` on `from` can walk: single steps, then
    /// chains of jumps.
    fn get_barrel_moves(&self, from: Position, player: Player) -> (r: Vec<Vec<Position>>)
        requires
            from.on_grid(),
        ensures
            paths_on_grid(r@),
            gains(Seq::empty(), paths_of(r@), |q: Seq<int>| walks_of(self@, player, from.sq(), q)),
    {
        let ghost st = self@;
        let ghost f = from.sq();
        let mut all_paths: Vec<Vec<Position>> = Vec::new();
        let ghost base = paths_of(all_paths@);
        proof {
            assert(base =~= Seq::empty());
            assert(row_of(f) == from.row && col_of(f) == from.col);
            lemma_gains_nothing(base, |q: Seq<int>| steps_by(st, f, 0, q));
        }
        let mut i: usize = 0;
        while i < 8
            invariant
                i <= 8,
                st == self@,
                f == from.sq(),
                from.on_grid(),
                row_of(f) == from.row && col_of(f) == from.col,
                paths_on_grid(all_paths@),
                gains(base, paths_of(all_paths@), |q: Seq<int>| steps_by(st, f, i as int, q)),
            decreases 8 - i,
        {
            proof {
                lemma_scan_dir(i as int);
            }
            let ghost list1 = paths_of(all_paths@);
            let ghost x = ray(f, scan_dir(i as int), 1);
            let ghost k1 = |q: Seq<int>| steps_by(st, f, i as int, q);
            let ghost k2 = |q: Seq<int>| steps_by(st, f, i as int + 1, q);
            let to = Position::new(from.row + DIR_ROWS[i], from.col + DIR_COLS[i]);
            let free: bool = match self.get(to) {
                Some(cell) => cell == Cell::Empty,
                None => false,
            };
            if free {
                let one: Vec<Position> = vec![to];
                proof {
                    assert(to.sq() == x);
                    assert(one@ =~= seq![to]);
                    assert(path_squares(one@) =~= seq![x]);
                    lemma_grid_push(all_paths@, one);
                    assert forall|q: Seq<int>| #[trigger] k2(q) == (k1(q) || q == seq![x]) by {
                        lemma_steps_next(st, f, i as int, q);
                    }
                    lemma_steps_next(st, f, i as int, seq![x]);
                    lemma_gains_push(base, list1, k1, seq![x], k2);
                }
                all_paths.push(one);
            } else {
                proof {
                    assert forall|q: Seq<int>| #[trigger] k1(q) == k2(q) by {
                        lemma_steps_next(st, f, i as int, q);
                    }
                    lemma_gains_same(base, list1, k1, k2);
                }
            }
            i = i + 1;
        }
        let mut visited: Vec<bool> = Vec::new();
        let mut s: usize = 0;
        while s < 36
            invariant
                s <= 36,
                visited@.len() == s,
                forall|t: int| 0 <= t < s ==> !#[trigger] visited@[t],
            decreases 36 - s,
        {
            visited.push(false);
            s = s + 1;
        }
        visited.set(from.index(), true);
        let mut path: Vec<Position> = Vec::new();
        let ghost list2 = paths_of(all_paths@);
        proof {
            assert(path_squares(path@) =~= Seq::<int>::empty());
            lemma_chain_empty(st.cells, player, f);
        }
        self.find_jump_sequences(from, from, player, &mut visited, &mut path, &mut all_paths);
        proof {
            let k1 = |q: Seq<int>| steps_by(st, f, 8, q);
            let kj = |q: Seq<int>|
                jump_chain(self@.cells, player, from.sq(), q) && continues(q, Seq::empty());
            let k = |q: Seq<int>| walks_of(self@, player, from.sq(), q);
            lemma_gains_same(
                list2,
                paths_of(all_paths@),
                |q: Seq<int>|
                    jump_chain(self@.cells, player, from.sq(), q) && continues(q, path_squares(Seq::<Position>::empty())),
                kj,
            );
            assert forall|q: Seq<int>| #[trigger] k(q) == (k1(q) || kj(q)) by {
                assert(q.subrange(0, 0) =~= Seq::<int>::empty());
                if q.len() == 1 && st.step_ok(f, q[0]) {
                    lemma_adjacent_ray(f, q[0]);
                }
            }
            assert forall|q: Seq<int>| !(#[trigger] k1(q) && kj(q)) by {
                if k1(q) && kj(q) {
                    lemma_step_is_no_jump_of(st, player, f, q);
                }
            }
            lemma_gains_trans(base, list2, paths_of(all_paths@), k1, kj, k);
        }
        all_paths
    }
}

proof fn lemma_step_is_no_jump_of(st: GameState, p: Player, f: int, path: Seq<int>)
    requires
        on_board(f),
        path.len() == 1,
        st.step_ok(f, path[0]),
    ensures
        !jump_chain(st.cells, p, f, path),
{
    lemma_step_is_no_jump(GameState { player: p, ..st }, f, path);
}

/// The list holds exactly the barrels of `p`, in ascending order.
proof fn lemma_barrel_squares(cells: Seq<Cell>, p: Player, n: nat)
    ensures
        forall|k: int|
            0 <= k < barrel_squares(cells, p, n).len() ==> 0 <= #[trigger] barrel_squares(cells, p, n)[k] < n
                && cells[barrel_squares(cells, p, n)[k]] == barrel_of(p),
        forall|i: int, j: int|
            0 <= i < j < barrel_squares(cells, p, n).len() ==> #[trigger] barrel_squares(cells, p, n)[i]
                < #[trigger] barrel_squares(cells, p, n)[j],
        forall|s: int| 0 <= s < n && cells[s] == barrel_of(p) ==> found(barrel_squares(cells, p, n), 0, s),
    decreases n,
{
    if n > 0 {
        let m = (n - 1) as nat;
        let a = barrel_squares(cells, p, m);
        let b = barrel_squares(cells, p, n);
        lemma_barrel_squares(cells, p, m);
        assert forall|s: int| 0 <= s < n && cells[s] == barrel_of(p) implies found(b, 0, s) by {
            if s < m {
                assert(found(a, 0, s));
                let k = choose|k: int| 0 <= k < a.len() && #[trigger] a[k] == s;
                assert(b[k] == s);
            } else {
                assert(b[a.len() as int] == s);
            }
        }
    }
}

proof fn lemma_actions_push(moves: Seq<Move>, m: Move)
    requires
        all_single(moves),
        m.valid(),
        m.single(),
    ensures
        all_single(moves.push(m)),
        actions_of(moves.push(m)) == actions_of(moves).push(m@),
{
    let all = moves.push(m);
    assert(actions_of(all) =~= actions_of(moves).push(m@));
    assert forall|i: int| 0 <= i < all.len() implies (#[trigger] all[i]).valid() && all[i].single() by {
        if i < moves.len() {
            assert(all[i] == moves[i]);
        }
    }
}

/// The pail placements stand before all other moves.
pub open spec fn pails_first(moves: Seq<Move>) -> bool {
    forall|i: int, j: int| 0 <= i < j < moves.len() && (#[trigger] moves[j]).is_pail_only ==> (#[trigger] moves[i]).is_pail_only
}

impl Board {
    fn push_pails(&self, moves: &mut Vec<Move>)
        requires
            all_single(old(moves)@),
        ensures
            all_single(final(moves)@),
            gains(actions_of(old(moves)@), actions_of(final(moves)@), |a: Action| is_pail(self@, a)),
    {
        let ghost st = self@;
        let ghost base = actions_of(moves@);
        if self.awaiting_barrel || self.current_player_has_pail() {
            proof {
                lemma_gains_nothing(base, |a: Action| is_pail(self@, a));
            }
            return;
        }
        proof {
            lemma_gains_nothing(base, |a: Action| is_pail(st, a) && a->at < 0);
        }
        let mut s: usize = 0;
        while s < 36
            invariant
                s <= 36,
                st == self@,
                !st.awaiting_barrel,
                !st.pail_placed(st.player),
                all_single(moves@),
                gains(base, actions_of(moves@), |a: Action| is_pail(st, a) && a->at < s),
            decreases 36 - s,
        {
            let ghost k1 = |a: Action| is_pail(st, a) && a->at < s;
            let ghost k2 = |a: Action| is_pail(st, a) && a->at < s + 1;
            let ghost list1 = actions_of(moves@);
            if self.cell(s) == Cell::Empty {
                let mv = Move::pail_only(Position::of_square(s));
                proof {
                    assert(mv@ == (Action::Pail { at: s as int }));
                    lemma_actions_push(moves@, mv);
                    lemma_gains_push(base, list1, k1, mv@, k2);
                }
                moves.push(mv);
            } else {
                proof {
                    lemma_gains_same(base, list1, k1, k2);
                }
            }
            s = s + 1;
        }
        proof {
            lemma_gains_same(
                base,
                actions_of(moves@),
                |a: Action| is_pail(st, a) && a->at < 36,
                |a: Action| is_pail(self@, a),
            );
        }
    }

    fn push_placements(&self, moves: &mut Vec<Move>)
        requires
            all_single(old(moves)@),
        ensures
            all_single(final(moves)@),
            gains(actions_of(old(moves)@), actions_of(final(moves)@), |a: Action| is_place(self@, a)),
    {
        let ghost st = self@;
        let ghost base = actions_of(moves@);
        if self.current_player_barrels_off_board() == 0 {
            proof {
                lemma_gains_nothing(base, |a: Action| is_place(self@, a));
            }
            return;
        }
        let start: usize = self.starting_row(self.current_player);
        proof {
            lemma_gains_nothing(base, |a: Action| is_place(st, a) && col_of(a->to) < 0);
        }
        let mut col: usize = 0;
        while col < BOARD_SIZE
            invariant
                col <= 6,
                st == self@,
                st.off(st.player) > 0,
                start == start_row(st.player),
                all_single(moves@),
                gains(base, actions_of(moves@), |a: Action| is_place(st, a) && col_of(a->to) < col),
            decreases 6 - col,
        {
            let ghost k1 = |a: Action| is_place(st, a) && col_of(a->to) < col;
            let ghost k2 = |a: Action| is_place(st, a) && col_of(a->to) < col + 1;
            let ghost list1 = actions_of(moves@);
            let s: usize = start * BOARD_SIZE + col;
            if self.cell(s) == Cell::Empty {
                let mv = Move::place_barrel(None, Position::of_square(s));
                proof {
                    assert(mv@ == (Action::Place { to: s as int }));
                    lemma_actions_push(moves@, mv);
                    lemma_gains_push(base, list1, k1, mv@, k2);
                }
                moves.push(mv);
            } else {
                proof {
                    lemma_gains_same(base, list1, k1, k2);
                }
            }
            col = col + 1;
        }
        proof {
            lemma_gains_same(
                base,
                actions_of(moves@),
                |a: Action| is_place(st, a) && col_of(a->to) < 6,
                |a: Action| is_place(self@, a),
            );
        }
    }

    /// Appends the walks of the barrel on `from`.
    fn push_walks_from(&self, from: Position, moves: &mut Vec<Move>)
        requires
            all_single(old(moves)@),
            from.on_grid(),
            self@.cells[from.sq()] == barrel_of(self.current_player),
        ensures
            all_single(final(moves)@),
            gains(actions_of(old(moves)@), actions_of(final(moves)@), |a: Action| is_walk_from(self@, from.sq(), a)),
    {
        let ghost st = self@;
        let ghost f = from.sq();
        let ghost base = actions_of(moves@);
        let paths = self.get_barrel_moves(from, self.current_player);
        let ghost list = paths_of(paths@);
        let ghost kq = |q: Seq<int>| walks_of(self@, self.current_player, from.sq(), q);
        proof {
            lemma_gains_nothing(base, |a: Action| walk_listed(list, f, 0, a));
        }
        let mut j: usize = 0;
        while j < paths.len()
            invariant
                j <= paths@.len(),
                st == self@,
                f == from.sq(),
                from.on_grid(),
                list == paths_of(paths@),
                kq == (|q: Seq<int>| walks_of(self@, self.current_player, from.sq(), q)),
                gains(Seq::empty(), list, kq),
                paths_on_grid(paths@),
                all_single(moves@),
                gains(base, actions_of(moves@), |a: Action| walk_listed(list, f, j as int, a)),
            decreases paths@.len() - j,
        {
            let ghost k1 = |a: Action| walk_listed(list, f, j as int, a);
            let ghost k2 = |a: Action| walk_listed(list, f, j as int + 1, a);
            let ghost list1 = actions_of(moves@);
            let path = copy_path(&paths[j]);
            proof {
                lemma_listed(list, kq, j as int);
                assert(walks_of(st, st.player, f, list[j as int]));
                assert(path_squares(path@) == list[j as int]);
                assert(list[j as int].len() >= 1);
                assert(path@[path@.len() - 1].on_grid()) by {
                    assert(paths@[j as int]@[path@.len() - 1].on_grid());
                }
            }
            let mv = Move::move_barrel(None, from, path);
            proof {
                assert(mv@ == (Action::Walk { from: f, path: list[j as int] }));
                lemma_actions_push(moves@, mv);
                assert forall|a: Action| #[trigger] k2(a) == (k1(a) || a == mv@) by {
                    if k2(a) && !k1(a) {
                        let i = choose|i: int| 0 <= i < j + 1 && #[trigger] list[i] == a->path;
                        assert(i == j);
                    }
                    if k1(a) {
                        let i = choose|i: int| 0 <= i < j && #[trigger] list[i] == a->path;
                        assert(0 <= i < j + 1 && list[i] == a->path);
                    }
                    if a == mv@ {
                        assert(list[j as int] == a->path);
                    }
                }
                lemma_gains_push(base, list1, k1, mv@, k2);
            }
            moves.push(mv);
            j = j + 1;
        }
        proof {
            let k1 = |a: Action| walk_listed(list, f, list.len() as int, a);
            let k2 = |a: Action| is_walk_from(self@, from.sq(), a);
            assert forall|a: Action| #[trigger] k1(a) == k2(a) by {
                if k2(a) {
                    assert(kq(a->path));
                    lemma_listed_all(list, kq, a->path);
                    let i = choose|i: int| 0 <= i < list.len() && #[trigger] list[i] == a->path;
                    assert(walk_listed(list, f, list.len() as int, a));
                }
                if k1(a) {
                    let i = choose|i: int| 0 <= i < list.len() && #[trigger] list[i] == a->path;
                    lemma_listed(list, kq, i);
                    assert(kq(list[i]));
                }
            }
            lemma_gains_same(base, actions_of(moves@), k1, k2);
        }
    }

    fn push_walks(&self, moves: &mut Vec<Move>)
        requires
            all_single(old(moves)@),
        ensures
            all_single(final(moves)@),
            gains(actions_of(old(moves)@), actions_of(final(moves)@), |a: Action| is_walk(self@, a)),
    {
        let ghost st = self@;
        let ghost base = actions_of(moves@);
        let barrels = self.find_barrels(self.current_player);
        let ghost sqs = path_squares(barrels@);
        proof {
            lemma_barrel_squares(st.cells, st.player, 36);
            lemma_gains_nothing(base, |a: Action| is_walk(st, a) && from_listed(sqs, 0, a));
        }
        let mut k: usize = 0;
        while k < barrels.len()
            invariant
                k <= barrels@.len(),
                st == self@,
                sqs == path_squares(barrels@),
                sqs == barrel_squares(st.cells, st.player, 36),
                forall|i: int| 0 <= i < barrels@.len() ==> (#[trigger] barrels@[i]).on_grid(),
                all_single(moves@),
                gains(base, actions_of(moves@), |a: Action| is_walk(st, a) && from_listed(sqs, k as int, a)),
            decreases barrels@.len() - k,
        {
            let ghost k1 = |a: Action| is_walk(st, a) && from_listed(sqs, k as int, a);
            let ghost k3 = |a: Action| is_walk(st, a) && from_listed(sqs, k as int + 1, a);
            let ghost list1 = actions_of(moves@);
            let from = barrels[k];
            proof {
                lemma_barrel_squares(st.cells, st.player, 36);
                assert(sqs[k as int] == from.sq());
            }
            self.push_walks_from(from, moves);
            proof {
                let k2 = |a: Action| is_walk_from(self@, from.sq(), a);
                assert forall|a: Action| #[trigger] k3(a) == (k1(a) || k2(a)) by {
                    if k3(a) && !k1(a) {
                        let i = choose|i: int| 0 <= i < k + 1 && #[trigger] sqs[i] == a->from;
                        assert(i == k);
                    }
                    if k1(a) {
                        let i = choose|i: int| 0 <= i < k && #[trigger] sqs[i] == a->from;
                        assert(0 <= i < k + 1 && sqs[i] == a->from);
                    }
                    if k2(a) {
                        assert(sqs[k as int] == a->from);
                    }
                }
                assert forall|a: Action| !(#[trigger] k1(a) && k2(a)) by {
                    if k1(a) && k2(a) {
                        let i = choose|i: int| 0 <= i < k && #[trigger] sqs[i] == a->from;
                        assert(sqs[i] < sqs[k as int]);
                    }
                }
                lemma_gains_trans(base, list1, actions_of(moves@), k1, k2, k3);
            }
            k = k + 1;
        }
        proof {
            lemma_barrel_squares(st.cells, st.player, 36);
            let k1 = |a: Action| is_walk(st, a) && from_listed(sqs, sqs.len() as int, a);
            let k2 = |a: Action| is_walk(self@, a);
            assert forall|a: Action| #[trigger] k1(a) == k2(a) by {
                if k2(a) {
                    assert(found(sqs, 0, a->from));
                    let i = choose|i: int| 0 <= i < sqs.len() && #[trigger] sqs[i] == a->from;
                    assert(from_listed(sqs, sqs.len() as int, a));
                }
            }
            lemma_gains_same(base, actions_of(moves@), k1, k2);
        }
    }

    /// All legal moves of the side to move, each once, pail placements first.
    pub fn generate_moves(&self) -> (r: Vec<Move>)
        ensures
            gains(Seq::empty(), actions_of(r@), |a: Action| self@.legal(a)),
            all_single(r@),
            pails_first(r@),
    {
        let mut moves: Vec<Move> = Vec::new();
        let ghost none = actions_of(moves@);
        self.push_pails(&mut moves);
        let ghost m0 = moves@;
        let ghost k0 = |a: Action| is_pail(self@, a);
        self.push_placements(&mut moves);
        let ghost m1 = moves@;
        let ghost k1 = |a: Action| is_place(self@, a);
        self.push_walks(&mut moves);
        proof {
            assert(none =~= Seq::empty());
            let k2 = |a: Action| is_walk(self@, a);
            let k01 = |a: Action| is_pail(self@, a) || is_place(self@, a);
            let k = |a: Action| self@.legal(a);
            lemma_gains_trans(none, actions_of(m0), actions_of(m1), k0, k1, k01);
            assert forall|x: Action| #[trigger] k(x) == (k01(x) || k2(x)) by {
                match x {
                    Action::Pail { at } => {},
                    Action::Place { to } => {},
                    Action::Walk { from, path } => {},
                }
            }
            lemma_gains_trans(none, actions_of(m1), actions_of(moves@), k01, k2, k);
            let n0 = m0.len() as int;
            let n1 = m1.len() as int;
            let acts = actions_of(moves@);
            lemma_gains_prefix(actions_of(m0), actions_of(m1), k1);
            lemma_gains_prefix(actions_of(m1), acts, k2);
            lemma_gains_prefix(none, actions_of(m0), k0);
            assert forall|i: int, j: int|
                0 <= i < j < moves@.len() && (#[trigger] moves@[j]).is_pail_only implies (#[trigger] moves@[i]).is_pail_only by {
                assert(acts[j] is Pail);
                if j >= n1 {
                    assert(k2(acts[j]));
                } else if j >= n0 {
                    assert(actions_of(m1)[j] == acts[j]);
                    assert(k1(actions_of(m1)[j]));
                }
                assert(actions_of(m1)[i] == acts[i]);
                assert(actions_of(m0)[i] == acts[i]);
                assert(k0(actions_of(m0)[i]));
                assert(acts[i] is Pail);
                assert(acts[i] == moves@[i]@);
            }
        }
        moves
    }
}

/// The action walks the barrel on `f` along one of the first `n` paths.
spec fn walk_listed(list: Seq<Seq<int>>, f: int, n: int, a: Action) -> bool {
    a matches Action::Walk { from, path } && from == f && exists|i: int| 0 <= i < n && #[trigger] list[i] == path
}

/// The action starts on one of the first `n` squares.
spec fn from_listed(sqs: Seq<int>, n: int, a: Action) -> bool {
    exists|i: int| 0 <= i < n && #[trigger] sqs[i] == a->from
}

proof fn lemma_listed(list: Seq<Seq<int>>, k: spec_fn(Seq<int>) -> bool, j: int)
    requires
        gains(Seq::empty(), list, k),
        0 <= j < list.len(),
    ensures
        k(list[j]),
        forall|i: int| 0 <= i < list.len() && i != j ==> #[trigger] list[i] != list[j],
{
    reveal(gains);
}

proof fn lemma_listed_all(list: Seq<Seq<int>>, k: spec_fn(Seq<int>) -> bool, q: Seq<int>)
    requires
        gains(Seq::empty(), list, k),
        k(q),
    ensures
        found(list, 0, q),
{
    reveal(gains);
}

proof fn lemma_gains_prefix(a: Seq<Action>, b: Seq<Action>, k: spec_fn(Action) -> bool)
    requires
        gains(a, b, k),
    ensures
        a.len() <= b.len(),
        forall|i: int| 0 <= i < a.len() ==> #[trigger] b[i] == a[i],
        forall|i: int| a.len() <= i < b.len() ==> k(#[trigger] b[i]),
{
    reveal(gains);
}

} // verus!
