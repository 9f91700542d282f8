//! The order in which the legal moves of a position are listed.
use vstd::prelude::*;
use crate::bitmove::{pack, BitMove};
use crate::bits::on;
use crate::board::{Cell, Player};
use crate::rules::{barrel_of, hop, start_row, stop, Action, GameState};
use crate::squares::{on_board, ray, row_of};

verus! {

/// The squares from `s` on that the test picks, in rising order.
pub open spec fn rising(test: spec_fn(int) -> bool, s: int) -> Seq<int>
    decreases 64 - s,
{
    if s < 0 || s >= 64 {
        Seq::empty()
    } else if test(s) {
        seq![s] + rising(test, s + 1)
    } else {
        rising(test, s + 1)
    }
}

/// The members of a mask in rising order.
pub open spec fn members(mask: u64) -> Seq<int> {
    rising(|s: int| on(mask, s), 0)
}

proof fn lemma_rising_same(f: spec_fn(int) -> bool, g: spec_fn(int) -> bool, s: int)
    requires
        forall|x: int| s <= x < 64 ==> #[trigger] f(x) == g(x),
    ensures
        rising(f, s) == rising(g, s),
    decreases 64 - s,
{
    if 0 <= s < 64 {
        assert(f(s) == g(s));
        lemma_rising_same(f, g, s + 1);
    }
}

/// The members of a mask are the squares of a test that says the same.
pub(crate) proof fn lemma_members(mask: u64, f: spec_fn(int) -> bool)
    requires
        forall|x: int| 0 <= x < 64 ==> #[trigger] on(mask, x) == f(x),
    ensures
        members(mask) == rising(f, 0),
{
    let g = |s: int| on(mask, s);
    assert forall|x: int| 0 <= x < 64 implies #[trigger] g(x) == f(x) by {
        assert(on(mask, x) == f(x));
    }
    lemma_rising_same(g, f, 0);
}

proof fn lemma_rising_none(f: spec_fn(int) -> bool, s: int)
    requires
        forall|x: int| s <= x < 64 ==> !#[trigger] f(x),
    ensures
        rising(f, s) == Seq::<int>::empty(),
    decreases 64 - s,
{
    if 0 <= s < 64 {
        lemma_rising_none(f, s + 1);
    }
}

proof fn lemma_rising_first(f: spec_fn(int) -> bool, g: spec_fn(int) -> bool, s: int, l: int)
    requires
        0 <= s <= l < 64,
        f(l),
        forall|x: int| s <= x < l ==> !#[trigger] f(x),
        forall|x: int| s <= x < 64 ==> #[trigger] g(x) == (f(x) && x != l),
    ensures
        rising(f, s) == seq![l] + rising(g, s),
    decreases l - s,
{
    if s == l {
        assert(!g(s));
        lemma_rising_same(f, g, s + 1);
    } else {
        assert(!f(s));
        assert(!g(s));
        lemma_rising_first(f, g, s + 1, l);
    }
}

/// The least member comes first.
pub(crate) proof fn lemma_members_first(mask: u64, rest: u64, l: int)
    requires
        0 <= l < 64,
        on(mask, l),
        forall|x: int| 0 <= x < l ==> !on(mask, x),
        forall|x: int| #[trigger] on(rest, x) == (on(mask, x) && x != l),
    ensures
        members(mask) == seq![l] + members(rest),
{
    lemma_rising_first(|s: int| on(mask, s), |s: int| on(rest, s), 0, l);
}

pub(crate) proof fn lemma_members_none(mask: u64)
    requires
        forall|x: int| 0 <= x < 64 ==> !#[trigger] on(mask, x),
    ensures
        members(mask) == Seq::<int>::empty(),
{
    let f = |s: int| on(mask, s);
    assert forall|x: int| 0 <= x < 64 implies !#[trigger] f(x) by {
        assert(!on(mask, x));
    }
    lemma_rising_none(f, 0);
}

/// From the end of a chain a jump leads in a direction to a square it has not
/// stood on.
pub open spec fn leaps(cells: Seq<Cell>, p: Player, from: int, e: Seq<int>, d: int) -> bool {
    let at = stop(from, e, e.len() as int);
    let x = ray(at, d, 2);
    hop(cells, p, at, d) && !e.contains(x) && x != from
}

/// A chain with the jump in a direction.
pub open spec fn leapt(from: int, e: Seq<int>, d: int) -> Seq<int> {
    e.push(ray(stop(from, e, e.len() as int), d, 2))
}

/// The chains one jump longer, by direction from `d` on.
pub open spec fn next_chains(cells: Seq<Cell>, p: Player, from: int, e: Seq<int>, d: int) -> Seq<Seq<int>>
    decreases 8 - d,
{
    if d < 0 || d >= 8 {
        Seq::empty()
    } else if leaps(cells, p, from, e, d) {
        seq![leapt(from, e, d)] + next_chains(cells, p, from, e, d + 1)
    } else {
        next_chains(cells, p, from, e, d + 1)
    }
}

/// The chains that go on from a chain: those one jump longer by direction, then
/// what goes on from them, the last direction first.
pub open spec fn chains_from(cells: Seq<Cell>, p: Player, from: int, e: Seq<int>) -> Seq<Seq<int>>
    decreases 8 - e.len(), 1int, 0int,
{
    next_chains(cells, p, from, e, 0) + later_chains(cells, p, from, e, 0)
}

/// What goes on from the chains one jump longer, by direction from `d` on, the
/// last direction first.
pub open spec fn later_chains(cells: Seq<Cell>, p: Player, from: int, e: Seq<int>, d: int) -> Seq<Seq<int>>
    decreases 8 - e.len(), 0int, 8 - d,
{
    if d < 0 || d >= 8 || e.len() >= 8 {
        Seq::empty()
    } else if leaps(cells, p, from, e, d) {
        later_chains(cells, p, from, e, d + 1) + chains_from(cells, p, from, leapt(from, e, d))
    } else {
        later_chains(cells, p, from, e, d + 1)
    }
}

/// One jump taken up: the chain is listed, and what goes on from it is next in
/// turn after the later directions.
pub(crate) proof fn lemma_leap_taken(
    cells: Seq<Cell>,
    p: Player,
    from: int,
    done: Seq<Seq<int>>,
    e: Seq<int>,
    d: int,
    rest: Seq<Seq<int>>,
)
    requires
        0 <= d < 8,
        e.len() < 8,
        leaps(cells, p, from, e, d),
    ensures
        done + (next_chains(cells, p, from, e, d) + (later_chains(cells, p, from, e, d) + rest)) == done.push(
            leapt(from, e, d),
        ) + (next_chains(cells, p, from, e, d + 1) + (later_chains(cells, p, from, e, d + 1) + (chains_from(
            cells,
            p,
            from,
            leapt(from, e, d),
        ) + rest))),
{
    let c = leapt(from, e, d);
    let k = next_chains(cells, p, from, e, d + 1);
    let g = later_chains(cells, p, from, e, d + 1);
    let b = chains_from(cells, p, from, c);
    assert(done + ((seq![c] + k) + ((g + b) + rest)) =~= done.push(c) + (k + (g + (b + rest))));
}

/// What a move that stands for an action looks like.
pub open spec fn is_made(m: BitMove, a: Action) -> bool {
    match a {
        Action::Pail { at } => {
            &&& m.packed == pack(at as u32, 63, at as u32, 0, 1, 1)
            &&& m.path@ == seq![at as u8, 0u8, 0u8, 0u8, 0u8, 0u8, 0u8, 0u8]
        },
        Action::Place { to } => {
            &&& m.packed == pack(to as u32, 63, 63, 1, 1, 0)
            &&& m.path@ == seq![to as u8, 0u8, 0u8, 0u8, 0u8, 0u8, 0u8, 0u8]
        },
        Action::Walk { from, path } => {
            &&& m.packed == pack(path.last() as u32, from as u32, 63, 0, path.len() as u32, 0)
            &&& forall|i: int|
                0 <= i < 8 ==> #[trigger] m.path@[i] == (if i < path.len() {
                    path[i] as u8
                } else {
                    0u8
                })
        },
    }
}

/// The moves from `start` on stand for the actions, in their order.
#[verifier::opaque]
pub open spec fn tells(moves: Seq<BitMove>, start: int, acts: Seq<Action>) -> bool {
    &&& moves.len() == start + acts.len()
    &&& forall|i: int| 0 <= i < acts.len() ==> is_made(#[trigger] moves[start + i], acts[i])
}

pub open spec fn pail_acts(squares: Seq<int>) -> Seq<Action> {
    Seq::new(squares.len(), |i: int| Action::Pail { at: squares[i] })
}

pub open spec fn place_acts(squares: Seq<int>) -> Seq<Action> {
    Seq::new(squares.len(), |i: int| Action::Place { to: squares[i] })
}

pub open spec fn step_acts(from: int, squares: Seq<int>) -> Seq<Action> {
    Seq::new(squares.len(), |i: int| Action::Walk { from, path: seq![squares[i]] })
}

pub open spec fn jump_acts(from: int, chains: Seq<Seq<int>>) -> Seq<Action> {
    Seq::new(chains.len(), |i: int| Action::Walk { from, path: chains[i] })
}

/// The pail placements in the order of the squares.
pub open spec fn pails_of(st: GameState) -> Seq<Action> {
    if !st.awaiting_barrel && !st.pail_placed(st.player) {
        pail_acts(rising(|s: int| on_board(s) && st.cells[s] == Cell::Empty, 0))
    } else {
        Seq::empty()
    }
}

/// The barrel placements in the order of the squares.
pub open spec fn places_of(st: GameState) -> Seq<Action> {
    if st.off(st.player) > 0 {
        place_acts(
            rising(|s: int| on_board(s) && st.cells[s] == Cell::Empty && row_of(s) == start_row(st.player), 0),
        )
    } else {
        Seq::empty()
    }
}

/// The walks of the barrel on a square: the steps in the order of the squares,
/// then the jumps.
pub open spec fn walks_of(st: GameState, from: int) -> Seq<Action> {
    step_acts(from, rising(|s: int| st.step_ok(from, s), 0)) + jump_acts(
        from,
        chains_from(st.cells, st.player, from, Seq::empty()),
    )
}

/// The walks of the barrels on several squares.
pub open spec fn all_walks(st: GameState, squares: Seq<int>) -> Seq<Action>
    decreases squares.len(),
{
    if squares.len() == 0 {
        Seq::empty()
    } else {
        all_walks(st, squares.drop_last()) + walks_of(st, squares.last())
    }
}

/// The legal actions in the order they are listed: the pail placements, the
/// barrel placements, then the walks of one barrel after another.
pub open spec fn listing(st: GameState) -> Seq<Action> {
    pails_of(st) + places_of(st) + all_walks(st, rising(|s: int| on_board(s) && st.cells[s] == barrel_of(st.player), 0))
}

/// The moves are the legal ones in the order they are listed.
#[verifier::opaque]
pub open spec fn in_order(moves: Seq<BitMove>, st: GameState) -> bool {
    tells(moves, 0, listing(st))
}

/// More moves for more actions.
#[verifier::spinoff_prover]
pub(crate) proof fn lemma_tells_both(a: Seq<BitMove>, b: Seq<BitMove>, start: int, x: Seq<Action>, y: Seq<Action>)
    requires
        0 <= start,
        tells(a, start, x),
        tells(b, a.len() as int, y),
        forall|i: int| 0 <= i < a.len() ==> #[trigger] b[i] == a[i],
    ensures
        tells(b, start, x + y),
{
    reveal(tells);
    assert forall|i: int| 0 <= i < (x + y).len() implies is_made(#[trigger] b[start + i], (x + y)[i]) by {
        if i < x.len() {
            assert(b[start + i] == a[start + i]);
        } else {
            assert(b[start + i] == b[a.len() + (i - x.len())]);
        }
    }
}

/// One more move for one more action.
#[verifier::spinoff_prover]
pub(crate) proof fn lemma_tells_push(a: Seq<BitMove>, start: int, x: Seq<Action>, m: BitMove, y: Action)
    requires
        0 <= start,
        tells(a, start, x),
        is_made(m, y),
    ensures
        tells(a.push(m), start, x.push(y)),
{
    reveal(tells);
    assert forall|i: int| 0 <= i < x.push(y).len() implies is_made(#[trigger] a.push(m)[start + i], x.push(y)[i]) by {
        if i < x.len() {
            assert(a.push(m)[start + i] == a[start + i]);
        }
    }
}

pub(crate) proof fn lemma_tells_none(a: Seq<BitMove>)
    ensures
        tells(a, a.len() as int, Seq::empty()),
{
    reveal(tells);
}

/// A position's moves are listed in one order only.
pub proof fn law_one_listing(x: Seq<BitMove>, y: Seq<BitMove>, st: GameState)
    requires
        in_order(x, st),
        in_order(y, st),
    ensures
        x == y,
{
    reveal(in_order);
    reveal(tells);
    let acts = listing(st);
    assert forall|i: int| 0 <= i < x.len() implies x[i] == y[i] by {
        assert(is_made(x[0 + i], acts[i]));
        assert(is_made(y[0 + i], acts[i]));
        assert(x[i].path@ =~= y[i].path@);
        assert(x[i].path =~= y[i].path);
    }
    assert(x =~= y);
}

} // verus!
