//! Move generation on masks: exactly the legal actions, each once.
use vstd::prelude::*;
use crate::bitboard::BitBoard;
use crate::bitmove::BitMove;
use crate::bits::{drop_lowest, group_has, lemma_empty, lemma_lowest, lowest, on};
use crate::board::{Cell, Player};
use crate::move_order::{
    all_walks, chains_from, in_order, is_made, jump_acts, later_chains, lemma_leap_taken, lemma_members,
    lemma_members_first, lemma_members_none, lemma_tells_both, lemma_tells_none, lemma_tells_push, members, next_chains,
    pail_acts, pails_of, place_acts, places_of, rising, step_acts, tells, walks_of,
};
use crate::rules::{
    barrel_of, continues, hop, jump_chain, jump_ok, lemma_chain_empty, lemma_chain_jump, lemma_chain_len,
    lemma_chain_prefix, lemma_chain_push, lemma_chain_squares, lemma_ray, lemma_ray_injective, start_row, stop, Action,
    GameState,
};
use crate::squares::{
    adjacent, bit, lemma_tables, on_board, ray, row_of, ADJACENT, JUMP_LANDING, JUMP_OVER, NUM_JUMP_DIRS,
};

verus! {

/// `new` is `old` followed by moves for exactly the actions of `kind`, each once.
pub open spec fn adds(old_moves: Seq<BitMove>, new_moves: Seq<BitMove>, kind: spec_fn(Action) -> bool) -> bool {
    &&& old_moves.len() <= new_moves.len()
    &&& forall|i: int| 0 <= i < old_moves.len() ==> #[trigger] new_moves[i] == old_moves[i]
    &&& forall|i: int|
        old_moves.len() <= i < new_moves.len() ==> (#[trigger] new_moves[i]).valid() && new_moves[i].single() && kind(
            new_moves[i]@,
        )
    &&& forall|a: Action| #[trigger] kind(a) ==> has_action(new_moves, old_moves.len() as int, a)
    &&& forall|i: int, j: int|
        old_moves.len() <= i < j < new_moves.len() ==> (#[trigger] new_moves[i])@ != (#[trigger] new_moves[j])@
}

/// A move at or behind `start` stands for `a`.
pub open spec fn has_action(moves: Seq<BitMove>, start: int, a: Action) -> bool {
    exists|i: int| start <= i < moves.len() && (#[trigger] moves[i])@ == a
}

#[verifier::spinoff_prover]
proof fn lemma_adds_push(
    a: Seq<BitMove>,
    b: Seq<BitMove>,
    k1: spec_fn(Action) -> bool,
    m: BitMove,
    k2: spec_fn(Action) -> bool,
)
    requires
        adds(a, b, k1),
        m.valid(),
        m.single(),
        !k1(m@),
        forall|x: Action| #[trigger] k2(x) == (k1(x) || x == m@),
    ensures
        adds(a, b.push(m), k2),
{
    let c = b.push(m);
    assert forall|x: Action| #[trigger] k2(x) implies has_action(c, a.len() as int, x) by {
        if k1(x) {
            assert(has_action(b, a.len() as int, x));
            let i = choose|i: int| a.len() <= i < b.len() && (#[trigger] b[i])@ == x;
            assert(c[i]@ == x);
        } else {
            assert(c[b.len() as int]@ == x);
        }
    }
    assert forall|i: int| a.len() <= i < c.len() implies (#[trigger] c[i]).valid() && c[i].single() && k2(c[i]@) by {
        if i < b.len() {
            assert(c[i] == b[i]);
        }
    }
    assert forall|i: int, j: int| a.len() <= i < j < c.len() implies (#[trigger] c[i])@ != (#[trigger] c[j])@ by {
        assert(c[i] == b[i]);
        if j < b.len() {
            assert(c[j] == b[j]);
        }
    }
}

#[verifier::spinoff_prover]
proof fn lemma_adds_trans(
    a: Seq<BitMove>,
    b: Seq<BitMove>,
    c: Seq<BitMove>,
    k1: spec_fn(Action) -> bool,
    k2: spec_fn(Action) -> bool,
    k: spec_fn(Action) -> bool,
)
    requires
        adds(a, b, k1),
        adds(b, c, k2),
        forall|x: Action| #[trigger] k(x) == (k1(x) || k2(x)),
        forall|x: Action| !(#[trigger] k1(x) && k2(x)),
    ensures
        adds(a, c, k),
{
    assert forall|i: int| 0 <= i < a.len() implies #[trigger] c[i] == a[i] by {
        assert(b[i] == a[i]);
    }
    assert forall|i: int| a.len() <= i < c.len() implies (#[trigger] c[i]).valid() && c[i].single() && k(c[i]@) by {
        if i < b.len() {
            assert(c[i] == b[i]);
        }
    }
    assert forall|x: Action| #[trigger] k(x) implies has_action(c, a.len() as int, x) by {
        if k1(x) {
            assert(has_action(b, a.len() as int, x));
            let i = choose|i: int| a.len() <= i < b.len() && (#[trigger] b[i])@ == x;
            assert(c[i]@ == x);
        } else {
            assert(k2(x));
            assert(has_action(c, b.len() as int, x));
            let i = choose|i: int| b.len() <= i < c.len() && (#[trigger] c[i])@ == x;
            assert(c[i]@ == x);
        }
    }
    assert forall|i: int, j: int| a.len() <= i < j < c.len() implies (#[trigger] c[i])@ != (#[trigger] c[j])@ by {
        if i < b.len() {
            assert(c[i] == b[i]);
            assert(k1(b[i]@));
            if j < b.len() {
                assert(c[j] == b[j]);
            } else {
                assert(k2(c[j]@));
            }
        }
    }
}

#[verifier::spinoff_prover]
proof fn lemma_adds_nothing(a: Seq<BitMove>, k: spec_fn(Action) -> bool)
    requires
        forall|x: Action| !#[trigger] k(x),
    ensures
        adds(a, a, k),
{
}

#[verifier::spinoff_prover]
proof fn lemma_adds_same(a: Seq<BitMove>, b: Seq<BitMove>, k1: spec_fn(Action) -> bool, k2: spec_fn(Action) -> bool)
    requires
        adds(a, b, k1),
        forall|x: Action| #[trigger] k1(x) == k2(x),
    ensures
        adds(a, b, k2),
{
    assert forall|x: Action| #[trigger] k2(x) implies has_action(b, a.len() as int, x) by {
        assert(k1(x));
    }
    assert forall|i: int| a.len() <= i < b.len() implies (#[trigger] b[i]).valid() && b[i].single() && k2(b[i]@) by {
        assert(k1(b[i]@));
    }
}

/// A pending node of the search for jump chains.
struct JumpNode {
    at: u8,
    visited: u64,
    path: [u8; 8],
    len: u8,
}

impl JumpNode {
    spec fn walked(&self) -> Seq<int> {
        Seq::new(self.len as nat, |i: int| self.path@[i] as int)
    }

    spec fn ok(&self, cells: Seq<Cell>, p: Player, from: int) -> bool {
        &&& self.len <= 8
        &&& on_board(self.at as int)
        &&& self.at == stop(from, self.walked(), self.len as int)
        &&& jump_chain(cells, p, from, self.walked())
        &&& forall|s: int| #[trigger] on(self.visited, s) == (s == from || self.walked().contains(s))
    }
}

spec fn pending(stack: Seq<JumpNode>, q: Seq<int>) -> bool {
    exists|k: int| 0 <= k < stack.len() && continues(q, (#[trigger] stack[k]).walked())
}

spec fn emitted(done: Seq<Seq<int>>, q: Seq<int>) -> bool {
    exists|k: int| 0 <= k < done.len() && #[trigger] done[k] == q
}

/// Weight of the nodes still to be expanded, for termination.
spec fn weight(stack: Seq<JumpNode>) -> nat
    decreases stack.len(),
{
    if stack.len() == 0 {
        0
    } else {
        weight(stack.drop_last()) + node_weight(stack.last().len as int)
    }
}

spec fn node_weight(len: int) -> nat
    decreases 9 - len,
{
    if len >= 9 {
        1
    } else {
        9 * node_weight(len + 1)
    }
}

#[verifier::spinoff_prover]
proof fn lemma_node_weight(len: int)
    ensures
        node_weight(len) >= 1,
    decreases 9 - len,
{
    if len < 9 {
        lemma_node_weight(len + 1);
    }
}

/// What the jump search knows between two expansions: `done` lists the chains
/// emitted so far, every emitted chain's children are emitted or still to come.
spec fn jumps_inv(cells: Seq<Cell>, p: Player, from: int, done: Seq<Seq<int>>, stack: Seq<JumpNode>) -> bool {
    &&& forall|k: int| 0 <= k < stack.len() ==> (#[trigger] stack[k]).ok(cells, p, from)
    &&& forall|k: int|
        0 <= k < done.len() ==> (#[trigger] done[k]).len() >= 1 && jump_chain(cells, p, from, done[k])
    &&& forall|i: int, j: int| 0 <= i < j < done.len() ==> #[trigger] done[i] != #[trigger] done[j]
    &&& forall|i: int, j: int|
        0 <= i < j < stack.len() ==> (#[trigger] stack[i]).walked() != (#[trigger] stack[j]).walked()
    &&& forall|k: int| 0 <= k < stack.len() ==> (#[trigger] stack[k]).walked().len() == 0 || emitted(done, stack[k].walked())
    &&& forall|i: int| 0 <= i < done.len() ==> (#[trigger] done[i]).len() == 1 || emitted(done, done[i].drop_last())
    &&& forall|i: int, k: int|
        0 <= i < done.len() && 0 <= k < stack.len() ==> (#[trigger] done[i]).drop_last() != (#[trigger] stack[k]).walked()
}

/// Every chain is emitted, or continues a node on the stack, or continues the
/// node `cur` by a direction from `d` on.
spec fn jumps_complete(
    cells: Seq<Cell>,
    p: Player,
    from: int,
    done: Seq<Seq<int>>,
    stack: Seq<JumpNode>,
    cur: Seq<int>,
    d: int,
) -> bool {
    forall|q: Seq<int>| #[trigger] jump_chain(cells, p, from, q) && q.len() >= 1 ==> emitted(done, q) || pending(stack, q) || (
    continues(q, cur) && exists|e: int| d <= e < 8 && #[trigger] ray(stop(from, cur, cur.len() as int), e, 2) == q[cur.len() as int])
}

/// Emitting the child of `e` in direction `d` keeps the bookkeeping.
#[verifier::spinoff_prover]
proof fn lemma_expand_inv(
    cells: Seq<Cell>,
    p: Player,
    from: int,
    done: Seq<Seq<int>>,
    stack: Seq<JumpNode>,
    e: Seq<int>,
    x: int,
    n: JumpNode,
)
    requires
        jumps_inv(cells, p, from, done, stack),
        e.len() == 0 || emitted(done, e),
        forall|k: int| 0 <= k < stack.len() ==> (#[trigger] stack[k]).walked() != e,
        jump_chain(cells, p, from, e.push(x)),
        !emitted(done, e.push(x)),
        n.walked() == e.push(x),
        n.ok(cells, p, from),
    ensures
        jumps_inv(cells, p, from, done.push(e.push(x)), stack.push(n)),
{
    let c = e.push(x);
    let done2 = done.push(c);
    let stack2 = stack.push(n);
    assert(c.drop_last() =~= e);
    assert forall|q: Seq<int>| emitted(done, q) implies emitted(done2, q) by {
        let k = choose|k: int| 0 <= k < done.len() && #[trigger] done[k] == q;
        assert(done2[k] == q);
    }
    assert(emitted(done2, c)) by {
        assert(done2[done.len() as int] == c);
    }
    assert forall|i: int, j: int| 0 <= i < j < done2.len() implies #[trigger] done2[i] != #[trigger] done2[j] by {
        assert(done2[i] == done[i]);
        if j < done.len() {
            assert(done2[j] == done[j]);
        }
    }
    assert forall|i: int, j: int| 0 <= i < j < stack2.len() implies (#[trigger] stack2[i]).walked() != (
    #[trigger] stack2[j]).walked() by {
        assert(stack2[i] == stack[i]);
        if j < stack.len() {
            assert(stack2[j] == stack[j]);
        } else if stack[i].walked() == c {
            assert(emitted(done, stack[i].walked()));
        }
    }
    assert forall|k: int| 0 <= k < stack2.len() implies (#[trigger] stack2[k]).walked().len() == 0 || emitted(
        done2,
        stack2[k].walked(),
    ) by {
        if k < stack.len() {
            assert(stack2[k] == stack[k]);
        }
    }
    assert forall|i: int| 0 <= i < done2.len() implies (#[trigger] done2[i]).len() == 1 || emitted(
        done2,
        done2[i].drop_last(),
    ) by {
        if i < done.len() {
            assert(done2[i] == done[i]);
        }
    }
    assert forall|i: int, k: int| 0 <= i < done2.len() && 0 <= k < stack2.len() implies (#[trigger] done2[i]).drop_last()
        != (#[trigger] stack2[k]).walked() by {
        if i < done.len() {
            assert(done2[i] == done[i]);
            if k < stack.len() {
                assert(stack2[k] == stack[k]);
            } else if done[i].drop_last() == c {
                assert(done[i].len() == 1 || emitted(done, done[i].drop_last()));
                assert(done[i].drop_last().len() == done[i].len() - 1);
            }
        } else if k < stack.len() {
            assert(stack2[k] == stack[k]);
        }
    }
}

#[verifier::spinoff_prover]
proof fn lemma_expand_complete(
    cells: Seq<Cell>,
    p: Player,
    from: int,
    done: Seq<Seq<int>>,
    stack: Seq<JumpNode>,
    e: Seq<int>,
    d: int,
    x: int,
    n: JumpNode,
)
    requires
        jumps_complete(cells, p, from, done, stack, e, d),
        ray(stop(from, e, e.len() as int), d, 2) == x,
        n.walked() == e.push(x),
    ensures
        jumps_complete(cells, p, from, done.push(e.push(x)), stack.push(n), e, d + 1),
{
    let c = e.push(x);
    let done2 = done.push(c);
    let stack2 = stack.push(n);
    let at = stop(from, e, e.len() as int);
    assert forall|q: Seq<int>| #[trigger] jump_chain(cells, p, from, q) && q.len() >= 1 implies emitted(done2, q) || pending(
        stack2,
        q,
    ) || (continues(q, e) && exists|g: int| d + 1 <= g < 8 && #[trigger] ray(at, g, 2) == q[e.len() as int]) by {
        if emitted(done, q) {
            let k = choose|k: int| 0 <= k < done.len() && #[trigger] done[k] == q;
            assert(done2[k] == q);
        } else if pending(stack, q) {
            let k = choose|k: int| 0 <= k < stack.len() && continues(q, (#[trigger] stack[k]).walked());
            assert(stack2[k] == stack[k]);
        } else {
            let g = choose|g: int| d <= g < 8 && #[trigger] ray(at, g, 2) == q[e.len() as int];
            if g == d {
                assert(q[e.len() as int] == x);
                assert(q.subrange(0, e.len() as int) == e);
                assert(q.subrange(0, c.len() as int) =~= c) by {
                    assert forall|i: int| 0 <= i < e.len() implies q[i] == e[i] by {
                        assert(q.subrange(0, e.len() as int)[i] == q[i]);
                    }
                }
                if q.len() == c.len() {
                    assert(q =~= c);
                    assert(done2[done.len() as int] == q);
                } else {
                    assert(stack2[stack.len() as int] == n);
                    assert(continues(q, stack2[stack.len() as int].walked()));
                }
            } else {
                assert(d + 1 <= g < 8 && ray(at, g, 2) == q[e.len() as int]);
            }
        }
    }
}

#[verifier::spinoff_prover]
proof fn lemma_skip_complete(
    cells: Seq<Cell>,
    p: Player,
    from: int,
    done: Seq<Seq<int>>,
    stack: Seq<JumpNode>,
    e: Seq<int>,
    d: int,
)
    requires
        jumps_complete(cells, p, from, done, stack, e, d),
        on_board(stop(from, e, e.len() as int)),
        0 <= d < 8,
        ({
            let at = stop(from, e, e.len() as int);
            let x = ray(at, d, 2);
            !(hop(cells, p, at, d) && !e.contains(x) && x != from)
        }),
    ensures
        jumps_complete(cells, p, from, done, stack, e, d + 1),
{
    let at = stop(from, e, e.len() as int);
    assert forall|q: Seq<int>| #[trigger] jump_chain(cells, p, from, q) && q.len() >= 1 implies emitted(done, q) || pending(
        stack,
        q,
    ) || (continues(q, e) && exists|g: int| d + 1 <= g < 8 && #[trigger] ray(at, g, 2) == q[e.len() as int]) by {
        if !emitted(done, q) && !pending(stack, q) {
            let g = choose|g: int| d <= g < 8 && #[trigger] ray(at, g, 2) == q[e.len() as int];
            if g == d {
                let x = q[e.len() as int];
                lemma_chain_prefix(cells, p, from, q, e.len() as int + 1);
                assert(q.subrange(0, e.len() as int + 1) =~= e.push(x)) by {
                    assert forall|i: int| 0 <= i < e.len() implies q[i] == e[i] by {
                        assert(q.subrange(0, e.len() as int)[i] == q[i]);
                    }
                }
                lemma_chain_push(cells, p, from, e, x);
                let h = choose|h: int| 0 <= h < 8 && #[trigger] ray(at, h, 2) == x && hop(cells, p, at, h);
                lemma_ray_injective(at, h, d);
            } else {
                assert(d + 1 <= g < 8 && ray(at, g, 2) == q[e.len() as int]);
            }
        }
    }
}

/// The chains that go on from the nodes of a stack, the top first.
spec fn waiting(cells: Seq<Cell>, p: Player, from: int, stack: Seq<JumpNode>) -> Seq<Seq<int>>
    decreases stack.len(),
{
    if stack.len() == 0 {
        Seq::empty()
    } else {
        chains_from(cells, p, from, stack.last().walked()) + waiting(cells, p, from, stack.drop_last())
    }
}

/// A walk of the barrel on `f` by jumps.
pub open spec fn is_jump(st: GameState, f: int, a: Action) -> bool {
    a matches Action::Walk { from, path } && from == f && path.len() >= 1 && jump_chain(st.cells, st.player, f, path)
}

/// A walk of the barrel on `f` by one step.
pub open spec fn is_step(st: GameState, f: int, a: Action) -> bool {
    a matches Action::Walk { from, path } && from == f && path.len() == 1 && st.step_ok(f, path[0])
}

impl BitBoard {
    /// Appends the moves for all jump chains of the barrel on `from_sq`.
    #[verifier::spinoff_prover]
    #[verifier::rlimit(40)]
    fn find_jumps_iterative(&self, from_sq: u8, moves: &mut Vec<BitMove>)
        requires
            self.inv(),
            from_sq < 36,
        ensures
            adds(old(moves)@, final(moves)@, |a: Action| is_jump(self@, from_sq as int, a)),
            tells(
                final(moves)@,
                old(moves)@.len() as int,
                jump_acts(
                    from_sq as int,
                    chains_from(self@.cells, self.current_player, from_sq as int, Seq::empty()),
                ),
            ),
    {
        let ghost cells = self@.cells;
        let ghost p = self.current_player;
        let ghost from = from_sq as int;
        let ghost base = moves@.len() as int;
        let ghost before = moves@;
        let ghost mut done: Seq<Seq<int>> = Seq::empty();

        let all_barrels: u64 = self.all_barrels();
        let opponent_pail: u64 = self.pail(self.current_player.opponent());
        let own_pail: u64 = self.pail(self.current_player);
        let jumpable_mask: u64 = all_barrels | own_pail;

        let mut stack: Vec<JumpNode> = Vec::with_capacity(16);
        let root = JumpNode { at: from_sq, visited: bit(from_sq as usize), path: [0u8; 8], len: 0 };
        stack.push(root);
        proof {
            assert(root.walked() =~= Seq::<int>::empty());
            assert(stack@.drop_last() =~= Seq::<JumpNode>::empty());
            assert(waiting(cells, p, from, stack@.drop_last()) =~= Seq::<Seq<int>>::empty());
            assert(done + waiting(cells, p, from, stack@) =~= chains_from(cells, p, from, Seq::empty()));
            assert(jump_acts(from, done) =~= Seq::empty());
            lemma_tells_none(before);
            lemma_chain_empty(cells, p, from);
            assert forall|q: Seq<int>| #[trigger] jump_chain(cells, p, from, q) && q.len() >= 1 implies pending(stack@, q) by {
                assert(q.subrange(0, 0) =~= Seq::<int>::empty());
                assert(continues(q, stack@[0].walked()));
            }
        }
        while stack.len() > 0
            invariant
                self.inv(),
                from_sq < 36,
                from == from_sq,
                cells == self@.cells,
                p == self.current_player,
                forall|s: int| #[trigger] on(all_barrels, s) == (on(self.white_barrels, s) || on(self.black_barrels, s)),
                opponent_pail == self.pail_mask_of(p.opponent()),
                own_pail == self.pail_mask_of(p),
                jumpable_mask == all_barrels | own_pail,
                base == before.len(),
                moves@.len() == base + done.len(),
                forall|i: int| 0 <= i < base ==> #[trigger] moves@[i] == before[i],
                forall|k: int|
                    base <= k < moves@.len() ==> (#[trigger] moves@[k]).valid() && moves@[k].single() && moves@[k]@ == (
                    Action::Walk { from, path: done[k - base] }),
                jumps_inv(cells, p, from, done, stack@),
                jumps_complete(cells, p, from, done, stack@, Seq::empty(), 8),
                done + waiting(cells, p, from, stack@) == chains_from(cells, p, from, Seq::empty()),
                tells(moves@, base, jump_acts(from, done)),
            decreases weight(stack@),
        {
            let ghost stack0 = stack@;
            let node = stack.pop().unwrap();
            let ghost e = node.walked();
            let ghost nw = node_weight(node.len as int + 1);
            let ghost total = weight(stack0);
            proof {
                assert(stack0.last() == node);
                assert(stack@ =~= stack0.drop_last());
                assert((next_chains(cells, p, from, e, 0) + later_chains(cells, p, from, e, 0)) + waiting(
                    cells,
                    p,
                    from,
                    stack@,
                ) =~= next_chains(cells, p, from, e, 0) + (later_chains(cells, p, from, e, 0) + waiting(
                    cells,
                    p,
                    from,
                    stack@,
                )));
                assert(node == stack0[stack0.len() - 1]);
                lemma_node_weight(node.len as int + 1);
                assert(node.ok(cells, p, from));
                assert(node_weight(node.len as int) == 9 * nw);
                assert(total == weight(stack@) + 9 * nw);
                assert forall|k: int| 0 <= k < stack@.len() implies (#[trigger] stack@[k]).walked() != e by {
                    assert(stack@[k] == stack0[k]);
                }
                assert(jumps_inv(cells, p, from, done, stack@)) by {
                    assert forall|k: int| 0 <= k < stack@.len() implies #[trigger] stack@[k] == stack0[k] by {}
                }
                assert(jumps_complete(cells, p, from, done, stack@, e, 0)) by {
                    assert forall|q: Seq<int>| #[trigger] jump_chain(cells, p, from, q) && q.len() >= 1 implies emitted(
                        done,
                        q,
                    ) || pending(stack@, q) || (continues(q, e) && exists|g: int|
                        0 <= g < 8 && #[trigger] ray(stop(from, e, e.len() as int), g, 2) == q[e.len() as int]) by {
                        if !emitted(done, q) && !pending(stack@, q) {
                            assert(pending(stack0, q));
                            let k = choose|k: int| 0 <= k < stack0.len() && continues(q, (#[trigger] stack0[k]).walked());
                            if k < stack@.len() {
                                assert(stack@[k] == stack0[k]);
                            }
                            assert(continues(q, e));
                            let i = e.len() as int;
                            lemma_chain_jump(cells, p, from, q, i);
                            assert(stop(from, q, i) == stop(from, e, i)) by {
                                if i > 0 {
                                    assert(q.subrange(0, i)[i - 1] == q[i - 1]);
                                }
                            }
                        }
                    }
                }
                assert forall|i: int| 0 <= i < done.len() implies (#[trigger] done[i]).drop_last() != e by {
                    assert(done[i].drop_last() != stack0[stack0.len() - 1].walked());
                }
            }
            let mut d: usize = 0;
            while d < NUM_JUMP_DIRS
                invariant
                    self.inv(),
                    from_sq < 36,
                    from == from_sq,
                    cells == self@.cells,
                    p == self.current_player,
                    forall|s: int|
                        #[trigger] on(all_barrels, s) == (on(self.white_barrels, s) || on(self.black_barrels, s)),
                    opponent_pail == self.pail_mask_of(p.opponent()),
                    own_pail == self.pail_mask_of(p),
                    jumpable_mask == all_barrels | own_pail,
                    base == before.len(),
                    moves@.len() == base + done.len(),
                    forall|i: int| 0 <= i < base ==> #[trigger] moves@[i] == before[i],
                    forall|k: int|
                        base <= k < moves@.len() ==> (#[trigger] moves@[k]).valid() && moves@[k].single() && moves@[k]@ == (
                        Action::Walk { from, path: done[k - base] }),
                    0 <= d <= 8,
                    e == node.walked(),
                    node.ok(cells, p, from),
                    e.len() == 0 || emitted(done, e),
                    nw == node_weight(node.len as int + 1),
                    nw >= 1,
                    weight(stack@) + (8 - d) * nw + nw <= total,
                    forall|k: int| 0 <= k < stack@.len() ==> (#[trigger] stack@[k]).walked() != e,
                    forall|i: int|
                        0 <= i < done.len() && (#[trigger] done[i]).drop_last() == e ==> exists|g: int|
                            0 <= g < d && #[trigger] ray(node.at as int, g, 2) == done[i].last(),
                    jumps_inv(cells, p, from, done, stack@),
                    jumps_complete(cells, p, from, done, stack@, e, d as int),
                    done + (next_chains(cells, p, from, e, d as int) + (later_chains(cells, p, from, e, d as int) + waiting(
                        cells,
                        p,
                        from,
                        stack@,
                    ))) == chains_from(cells, p, from, Seq::empty()),
                    tells(moves@, base, jump_acts(from, done)),
                decreases 8 - d,
            {
                broadcast use group_has;

                proof {
                    lemma_tables(node.at as int);
                    assert((8 - d) * nw == (8 - d - 1) * nw + nw) by (nonlinear_arith);
                }
                let over: i8 = JUMP_OVER[node.at as usize][d];
                let landing: i8 = JUMP_LANDING[node.at as usize][d];
                let ghost x = ray(node.at as int, d as int, 2);
                if over >= 0 && landing >= 0 {
                    proof {
                        lemma_ray(node.at as int, d as int);
                        self.lemma_square(over as int);
                        self.lemma_square(landing as int);
                    }
                    let over_bit: u64 = bit(over as usize);
                    let landing_bit: u64 = bit(landing as usize);
                    proof {
                        lemma_mask_test(jumpable_mask, over as int);
                        lemma_mask_test(opponent_pail, over as int);
                        lemma_mask_test(self.occupied, landing as int);
                        lemma_mask_test(node.visited, landing as int);
                        assert(on(self.barrels_of(Player::White), over as int) == on(self.white_barrels, over as int));
                    }
                    if (node.visited & landing_bit) == 0 && (jumpable_mask & over_bit) != 0 && (opponent_pail & over_bit)
                        == 0 && (self.occupied & landing_bit) == 0 {
                        let ghost c = e.push(x);
                        proof {
                            assert(hop(cells, p, node.at as int, d as int));
                            assert(jump_ok(cells, p, node.at as int, x));
                            lemma_chain_push(cells, p, from, e, x);
                            lemma_chain_len(cells, p, from, c);
                        }
                        let mut new_path = node.path;
                        new_path[node.len as usize] = landing as u8;
                        let new_len: u8 = node.len + 1;
                        let to: u8 = landing as u8;
                        let mv = BitMove::new_move(
                            from_sq,
                            to,
                            vstd::slice::slice_subrange(vstd::array::array_as_slice(&new_path), 0, new_len as usize),
                            None,
                        );
                        let visited: u64 = node.visited | landing_bit;
                        let child = JumpNode { at: to, visited, path: new_path, len: new_len };
                        proof {
                            assert(child.walked() =~= c);
                            assert(mv.landings() =~= c);
                            lemma_leap_taken(cells, p, from, done, e, d as int, waiting(cells, p, from, stack@));
                            let a = Action::Walk { from, path: c };
                            assert(jump_acts(from, done).push(a) =~= jump_acts(from, done.push(c)));
                            assert forall|i: int| 0 <= i < 8 implies #[trigger] mv.path@[i] == (if i < c.len() {
                                c[i] as u8
                            } else {
                                0u8
                            }) by {
                                if i < c.len() {
                                    assert(mv.landings()[i] == c[i]);
                                }
                            }
                            lemma_tells_push(moves@, base, jump_acts(from, done), mv, a);
                            assert(mv.valid()) by {
                                assert forall|i: int| 0 <= i < mv.len() implies #[trigger] mv.path@[i] < 36 by {
                                    lemma_chain_squares(cells, p, from, c, i);
                                    assert(mv.landings()[i] == c[i]);
                                }
                            }
                            assert(child.ok(cells, p, from)) by {
                                assert forall|s: int| #[trigger] on(child.visited, s) == (s == from
                                    || child.walked().contains(s)) by {
                                    assert(on(node.visited, s) == (s == from || e.contains(s)));
                                    if e.contains(s) {
                                        let i = choose|i: int| 0 <= i < e.len() && e[i] == s;
                                        assert(c[i] == s);
                                    }
                                    if s == x {
                                        assert(c[e.len() as int] == s);
                                    }
                                    if c.contains(s) && s != x {
                                        let i = choose|i: int| 0 <= i < c.len() && c[i] == s;
                                        assert(e[i] == s);
                                    }
                                }
                            }
                            if emitted(done, c) {
                                let i = choose|i: int| 0 <= i < done.len() && #[trigger] done[i] == c;
                                assert(c.drop_last() =~= e);
                                let g = choose|g: int| 0 <= g < d && #[trigger] ray(node.at as int, g, 2) == done[i].last();
                                lemma_ray_injective(node.at as int, g, d as int);
                            }
                            lemma_expand_inv(cells, p, from, done, stack@, e, x, child);
                            lemma_expand_complete(cells, p, from, done, stack@, e, d as int, x, child);
                            if e.len() > 0 {
                                let k = choose|k: int| 0 <= k < done.len() && #[trigger] done[k] == e;
                                assert(done.push(c)[k] == e);
                            }
                            assert forall|i: int|
                                0 <= i < done.push(c).len() && (#[trigger] done.push(c)[i]).drop_last() == e implies exists|
                                g: int,
                            | 0 <= g < d + 1 && #[trigger] ray(node.at as int, g, 2) == done.push(c)[i].last() by {
                                if i < done.len() {
                                    assert(done.push(c)[i] == done[i]);
                                    let g = choose|g: int|
                                        0 <= g < d && #[trigger] ray(node.at as int, g, 2) == done[i].last();
                                    assert(0 <= g < d + 1 && ray(node.at as int, g, 2) == done[i].last());
                                } else {
                                    assert(ray(node.at as int, d as int, 2) == c.last());
                                }
                            }
                            done = done.push(c);
                            assert(stack@.push(child).drop_last() =~= stack@);
                        }
                        moves.push(mv);
                        stack.push(child);
                    } else {
                        proof {
                            lemma_skip_complete(cells, p, from, done, stack@, e, d as int);
                        }
                    }
                } else {
                    proof {
                        lemma_skip_complete(cells, p, from, done, stack@, e, d as int);
                    }
                }
                d = d + 1;
            }
            proof {
                assert(jumps_complete(cells, p, from, done, stack@, Seq::empty(), 8));
                let none = Seq::<Seq<int>>::empty();
                assert(none + (none + waiting(cells, p, from, stack@)) =~= waiting(cells, p, from, stack@));
            }
        }
        proof {
            assert(done + Seq::<Seq<int>>::empty() =~= done);
            let k = |a: Action| is_jump(self@, from_sq as int, a);
            assert forall|a: Action| #[trigger] k(a) implies has_action(moves@, base, a) by {
                let q = a->path;
                assert(jump_chain(cells, p, from, q));
                assert(emitted(done, q));
                let i = choose|i: int| 0 <= i < done.len() && #[trigger] done[i] == q;
                assert(moves@[base + i]@ == a);
            }
        }
    }
}

/// A pail placement of the side to move.
pub open spec fn is_pail(st: GameState, a: Action) -> bool {
    a is Pail && st.legal(a)
}

/// A barrel placement of the side to move.
pub open spec fn is_place(st: GameState, a: Action) -> bool {
    a is Place && st.legal(a)
}

/// A walk of a barrel of the side to move.
pub open spec fn is_walk(st: GameState, a: Action) -> bool {
    a is Walk && st.legal(a)
}

/// A walk of the barrel on `f`.
pub open spec fn is_walk_from(st: GameState, f: int, a: Action) -> bool {
    is_walk(st, a) && a->from == f
}

/// The moves stand for exactly the legal actions of `st`, each once, in the order
/// they are listed in: the pail placements before all others.
pub open spec fn lists_legal(moves: Seq<BitMove>, st: GameState) -> bool {
    &&& adds(Seq::empty(), moves, |a: Action| st.legal(a))
    &&& forall|i: int, j: int| 0 <= i < j < moves.len() && (#[trigger] moves[j]).pail_only() ==> (#[trigger] moves[i]).pail_only()
    &&& in_order(moves, st)
}

impl BitBoard {
    /// Appends a pail placement for every empty square.
    #[verifier::spinoff_prover]
    fn push_pails(&self, moves: &mut Vec<BitMove>)
        requires
            self.inv(),
            !self.awaiting_barrel,
            !self@.pail_placed(self.current_player),
        ensures
            adds(old(moves)@, final(moves)@, |a: Action| is_pail(self@, a)),
            tells(final(moves)@, old(moves)@.len() as int, pails_of(self@)),
    {
        let ghost before = moves@;
        let ghost mut done: Seq<int> = Seq::empty();
        let mut rest: u64 = self.empty();
        let ghost st = self@;
        proof {
            lemma_adds_nothing(before, |a: Action| is_pail(st, a) && !on(rest, a->at));
            lemma_members(rest, |s: int| on_board(s) && st.cells[s] == Cell::Empty);
            assert(done + members(rest) =~= members(rest));
            assert(pail_acts(done) =~= Seq::empty());
            lemma_tells_none(before);
        }
        let ghost all = members(rest);
        while rest != 0
            invariant
                st == self@,
                !st.awaiting_barrel,
                !st.pail_placed(st.player),
                forall|s: int| #[trigger] on(rest, s) ==> on_board(s) && st.cells[s] == Cell::Empty,
                adds(before, moves@, |a: Action| is_pail(st, a) && !on(rest, a->at)),
                done + members(rest) == all,
                tells(moves@, before.len() as int, pail_acts(done)),
            decreases rest,
        {
            let sq: u8 = lowest(rest) as u8;
            let mv = BitMove::new_pail_placement(sq);
            let ghost rest0 = rest;
            rest = drop_lowest(rest);
            proof {
                let k1 = |a: Action| is_pail(st, a) && !on(rest0, a->at);
                let k2 = |a: Action| is_pail(st, a) && !on(rest, a->at);
                assert forall|x: Action| #[trigger] k2(x) == (k1(x) || x == mv@) by {
                    if x is Pail {
                        assert(on(rest, x->at) == (on(rest0, x->at) && x->at != sq));
                    }
                }
                lemma_adds_push(before, moves@, k1, mv, k2);
                lemma_members_first(rest0, rest, sq as int);
                assert(done + (seq![sq as int] + members(rest)) =~= done.push(sq as int) + members(rest));
                assert(pail_acts(done).push(mv@) =~= pail_acts(done.push(sq as int)));
                lemma_tells_push(moves@, before.len() as int, pail_acts(done), mv, mv@);
                done = done.push(sq as int);
            }
            moves.push(mv);
        }
        proof {
            lemma_empty(rest);
            lemma_members_none(rest);
            assert(done + Seq::<int>::empty() =~= done);
            let k1 = |a: Action| is_pail(st, a) && !on(rest, a->at);
            let k2 = |a: Action| is_pail(st, a);
            assert forall|x: Action| #[trigger] k1(x) == k2(x) by {
                assert(on(rest, x->at) ==> 0 <= x->at < 64);
            }
            lemma_adds_same(before, moves@, k1, k2);
        }
    }

    /// Appends a placement for every empty square of the starting row.
    #[verifier::spinoff_prover]
    fn push_placements(&self, moves: &mut Vec<BitMove>)
        requires
            self.inv(),
            self@.off(self.current_player) > 0,
        ensures
            adds(old(moves)@, final(moves)@, |a: Action| is_place(self@, a)),
            tells(final(moves)@, old(moves)@.len() as int, places_of(self@)),
    {
        broadcast use group_has;

        let ghost before = moves@;
        let ghost mut done: Seq<int> = Seq::empty();
        let mut rest: u64 = self.starting_row_mask(self.current_player) & self.empty();
        let ghost st = self@;
        proof {
            lemma_adds_nothing(before, |a: Action| is_place(st, a) && !on(rest, a->to));
            lemma_members(
                rest,
                |s: int| on_board(s) && st.cells[s] == Cell::Empty && row_of(s) == start_row(st.player),
            );
            assert(done + members(rest) =~= members(rest));
            assert(place_acts(done) =~= Seq::empty());
            lemma_tells_none(before);
        }
        let ghost all = members(rest);
        while rest != 0
            invariant
                st == self@,
                st.off(st.player) > 0,
                forall|s: int|
                    #[trigger] on(rest, s) ==> on_board(s) && st.cells[s] == Cell::Empty && row_of(s) == start_row(st.player),
                adds(before, moves@, |a: Action| is_place(st, a) && !on(rest, a->to)),
                done + members(rest) == all,
                tells(moves@, before.len() as int, place_acts(done)),
            decreases rest,
        {
            let sq: u8 = lowest(rest) as u8;
            let mv = BitMove::new_placement(sq, None);
            let ghost rest0 = rest;
            rest = drop_lowest(rest);
            proof {
                let k1 = |a: Action| is_place(st, a) && !on(rest0, a->to);
                let k2 = |a: Action| is_place(st, a) && !on(rest, a->to);
                assert forall|x: Action| #[trigger] k2(x) == (k1(x) || x == mv@) by {
                    if x is Place {
                        assert(on(rest, x->to) == (on(rest0, x->to) && x->to != sq));
                    }
                }
                lemma_adds_push(before, moves@, k1, mv, k2);
                lemma_members_first(rest0, rest, sq as int);
                assert(done + (seq![sq as int] + members(rest)) =~= done.push(sq as int) + members(rest));
                assert(place_acts(done).push(mv@) =~= place_acts(done.push(sq as int)));
                lemma_tells_push(moves@, before.len() as int, place_acts(done), mv, mv@);
                done = done.push(sq as int);
            }
            moves.push(mv);
        }
        proof {
            lemma_empty(rest);
            lemma_members_none(rest);
            assert(done + Seq::<int>::empty() =~= done);
            let k1 = |a: Action| is_place(st, a) && !on(rest, a->to);
            let k2 = |a: Action| is_place(st, a);
            assert forall|x: Action| #[trigger] k1(x) == k2(x) by {
                assert(on(rest, x->to) ==> 0 <= x->to < 64);
            }
            lemma_adds_same(before, moves@, k1, k2);
        }
    }

    /// Appends a step to every empty neighbour of `from_sq`.
    #[verifier::spinoff_prover]
    fn push_steps(&self, from_sq: u8, moves: &mut Vec<BitMove>)
        requires
            self.inv(),
            from_sq < 36,
        ensures
            adds(old(moves)@, final(moves)@, |a: Action| is_step(self@, from_sq as int, a)),
            tells(
                final(moves)@,
                old(moves)@.len() as int,
                step_acts(from_sq as int, rising(|s: int| self@.step_ok(from_sq as int, s), 0)),
            ),
    {
        broadcast use group_has;

        let ghost before = moves@;
        let ghost mut done: Seq<int> = Seq::empty();
        let ghost st = self@;
        let ghost f = from_sq as int;
        proof {
            lemma_tables(f);
        }
        let mut rest: u64 = ADJACENT[from_sq as usize] & self.empty();
        proof {
            assert forall|s: int| #[trigger] on(rest, s) == st.step_ok(f, s) by {
                if on_board(s) {
                    assert(on(ADJACENT@[f], s) == adjacent(f, s));
                }
            }
            lemma_adds_nothing(before, |a: Action| is_step(st, f, a) && !on(rest, a->path[0]));
            lemma_members(rest, |s: int| self@.step_ok(from_sq as int, s));
            assert(done + members(rest) =~= members(rest));
            assert(step_acts(f, done) =~= Seq::empty());
            lemma_tells_none(before);
        }
        let ghost all = members(rest);
        while rest != 0
            invariant
                st == self@,
                f == from_sq,
                from_sq < 36,
                forall|s: int| #[trigger] on(rest, s) ==> st.step_ok(f, s),
                adds(before, moves@, |a: Action| is_step(st, f, a) && !on(rest, a->path[0])),
                done + members(rest) == all,
                tells(moves@, before.len() as int, step_acts(f, done)),
            decreases rest,
        {
            let sq: u8 = lowest(rest) as u8;
            let one: [u8; 1] = [sq];
            let mv = BitMove::new_move(from_sq, sq, vstd::array::array_as_slice(&one), None);
            let ghost rest0 = rest;
            rest = drop_lowest(rest);
            proof {
                assert(mv.landings() =~= seq![sq as int]);
                let k1 = |a: Action| is_step(st, f, a) && !on(rest0, a->path[0]);
                let k2 = |a: Action| is_step(st, f, a) && !on(rest, a->path[0]);
                assert forall|x: Action| #[trigger] k2(x) == (k1(x) || x == mv@) by {
                    if is_step(st, f, x) {
                        assert(on(rest, x->path[0]) == (on(rest0, x->path[0]) && x->path[0] != sq));
                        if x->path[0] == sq {
                            assert(x->path =~= seq![sq as int]);
                        }
                    }
                }
                lemma_adds_push(before, moves@, k1, mv, k2);
                lemma_members_first(rest0, rest, sq as int);
                assert(done + (seq![sq as int] + members(rest)) =~= done.push(sq as int) + members(rest));
                let a = Action::Walk { from: f, path: seq![sq as int] };
                assert(step_acts(f, done).push(a) =~= step_acts(f, done.push(sq as int)));
                assert(is_made(mv, a));
                lemma_tells_push(moves@, before.len() as int, step_acts(f, done), mv, a);
                done = done.push(sq as int);
            }
            moves.push(mv);
        }
        proof {
            lemma_empty(rest);
            lemma_members_none(rest);
            assert(done + Seq::<int>::empty() =~= done);
            let k1 = |a: Action| is_step(st, f, a) && !on(rest, a->path[0]);
            let k2 = |a: Action| is_step(self@, from_sq as int, a);
            assert forall|x: Action| #[trigger] k1(x) == k2(x) by {
                assert(on(rest, x->path[0]) ==> 0 <= x->path[0] < 64);
            }
            lemma_adds_same(before, moves@, k1, k2);
        }
    }

    /// Appends the walks of every barrel of the side to move.
    #[verifier::spinoff_prover]
    fn push_walks(&self, moves: &mut Vec<BitMove>)
        requires
            self.inv(),
        ensures
            adds(old(moves)@, final(moves)@, |a: Action| is_walk(self@, a)),
            tells(
                final(moves)@,
                old(moves)@.len() as int,
                all_walks(self@, rising(|s: int| on_board(s) && self@.cells[s] == barrel_of(self@.player), 0)),
            ),
    {
        let ghost before = moves@;
        let ghost mut done: Seq<int> = Seq::empty();
        let ghost st = self@;
        let mut rest: u64 = self.barrels(self.current_player);
        proof {
            assert forall|s: int| #[trigger] on(rest, s) == (on_board(s) && st.cells[s] == barrel_of(st.player)) by {
                self.lemma_square(s);
                assert(on(self.barrels_of(st.player), s) == (self.cell_at(s) == barrel_of(st.player)));
            }
            lemma_adds_nothing(before, |a: Action| is_walk(st, a) && !on(rest, a->from));
            lemma_members(rest, |s: int| on_board(s) && self@.cells[s] == barrel_of(self@.player));
            assert(done + members(rest) =~= members(rest));
            lemma_tells_none(before);
        }
        let ghost all = members(rest);
        while rest != 0
            invariant
                self.inv(),
                st == self@,
                forall|s: int| #[trigger] on(rest, s) ==> on_board(s) && st.cells[s] == barrel_of(st.player),
                adds(before, moves@, |a: Action| is_walk(st, a) && !on(rest, a->from)),
                done + members(rest) == all,
                tells(moves@, before.len() as int, all_walks(st, done)),
            decreases rest,
        {
            let from_sq: u8 = lowest(rest) as u8;
            let ghost f = from_sq as int;
            let ghost rest0 = rest;
            let ghost m0 = moves@;
            self.push_steps(from_sq, moves);
            let ghost m1 = moves@;
            self.find_jumps_iterative(from_sq, moves);
            rest = drop_lowest(rest);
            proof {
                let ks = |a: Action| is_step(self@, from_sq as int, a);
                let kj = |a: Action| is_jump(self@, from_sq as int, a);
                let kf = |a: Action| is_walk_from(st, f, a);
                assert forall|x: Action| !(#[trigger] ks(x) && kj(x)) by {
                    if ks(x) && kj(x) {
                        lemma_step_is_no_jump(st, f, x->path);
                    }
                }
                lemma_adds_trans(m0, m1, moves@, ks, kj, kf);
                let k1 = |a: Action| is_walk(st, a) && !on(rest0, a->from);
                let k2 = |a: Action| is_walk(st, a) && !on(rest, a->from);
                assert forall|x: Action| #[trigger] k2(x) == (k1(x) || kf(x)) by {
                    if x is Walk {
                        assert(on(rest, x->from) == (on(rest0, x->from) && x->from != f));
                    }
                }
                lemma_adds_trans(before, m0, moves@, k1, kf, k2);
                lemma_members_first(rest0, rest, f);
                assert(done + (seq![f] + members(rest)) =~= done.push(f) + members(rest));
                lemma_tells_both(
                    m1,
                    moves@,
                    m0.len() as int,
                    step_acts(f, rising(|s: int| self@.step_ok(from_sq as int, s), 0)),
                    jump_acts(f, chains_from(st.cells, st.player, f, Seq::empty())),
                );
                lemma_tells_both(m0, moves@, before.len() as int, all_walks(st, done), walks_of(st, f));
                assert(done.push(f).drop_last() =~= done);
                done = done.push(f);
            }
        }
        proof {
            lemma_empty(rest);
            lemma_members_none(rest);
            assert(done + Seq::<int>::empty() =~= done);
            let k1 = |a: Action| is_walk(st, a) && !on(rest, a->from);
            let k2 = |a: Action| is_walk(self@, a);
            assert forall|x: Action| #[trigger] k1(x) == k2(x) by {
                assert(on(rest, x->from) ==> 0 <= x->from < 64);
            }
            lemma_adds_same(before, moves@, k1, k2);
        }
    }

    /// All legal moves of the side to move, pail placements first.
    #[verifier::spinoff_prover]
    pub fn generate_moves(&self) -> (r: Vec<BitMove>)
        requires
            self.inv(),
        ensures
            lists_legal(r@, self@),
    {
        let mut moves: Vec<BitMove> = Vec::with_capacity(64);
        let ghost st = self@;
        let ghost none = moves@;
        let ghost k0 = |a: Action| is_pail(st, a);
        if !self.awaiting_barrel && !self.pail_placed(self.current_player) {
            self.push_pails(&mut moves);
            proof {
                lemma_adds_same(none, moves@, |a: Action| is_pail(self@, a), k0);
            }
        } else {
            proof {
                lemma_adds_nothing(none, k0);
                lemma_tells_none(none);
            }
        }
        let ghost m0 = moves@;
        let ghost k1 = |a: Action| is_place(st, a);
        if self.off_board(self.current_player) > 0 {
            self.push_placements(&mut moves);
            proof {
                lemma_adds_same(m0, moves@, |a: Action| is_place(self@, a), k1);
            }
        } else {
            proof {
                lemma_adds_nothing(m0, k1);
                lemma_tells_none(m0);
            }
        }
        let ghost m1 = moves@;
        self.push_walks(&mut moves);
        proof {
            let k2 = |a: Action| is_walk(self@, a);
            let k01 = |a: Action| is_pail(st, a) || is_place(st, a);
            let k = |a: Action| self@.legal(a);
            assert(none =~= Seq::empty());
            lemma_adds_trans(none, m0, m1, k0, k1, k01);
            assert forall|x: Action| #[trigger] k(x) == (k01(x) || k2(x)) by {
                match x {
                    Action::Pail { at } => {},
                    Action::Place { to } => {},
                    Action::Walk { from, path } => {},
                }
            }
            lemma_adds_trans(none, m1, moves@, k01, k2, k);
            assert(in_order(moves@, st)) by {
                reveal(in_order);
                lemma_tells_both(m0, m1, 0, pails_of(st), places_of(st));
                lemma_tells_both(
                    m1,
                    moves@,
                    0,
                    pails_of(st) + places_of(st),
                    all_walks(st, rising(|s: int| on_board(s) && st.cells[s] == barrel_of(st.player), 0)),
                );
            }
            assert forall|i: int, j: int|
                0 <= i < j < moves@.len() && (#[trigger] moves@[j]).pail_only() implies (#[trigger] moves@[i]).pail_only() by {
                assert(moves@[j]@ is Pail);
                if j >= m1.len() {
                    assert(k2(moves@[j]@));
                } else if j >= m0.len() {
                    assert(m1[j] == moves@[j]);
                    assert(k1(m1[j]@));
                }
                assert(m1[i] == moves@[i] && m0[i] == m1[i]);
                assert(k0(m0[i]@));
            }
        }
        moves
    }
}

/// A neighbour is never reached by a single jump.
#[verifier::spinoff_prover]
pub proof fn lemma_step_is_no_jump(st: GameState, f: int, path: Seq<int>)
    requires
        on_board(f),
        path.len() == 1,
        st.step_ok(f, path[0]),
    ensures
        !jump_chain(st.cells, st.player, f, path),
{
    if jump_chain(st.cells, st.player, f, path) {
        lemma_chain_jump(st.cells, st.player, f, path, 0);
        let d = choose|d: int| 0 <= d < 8 && #[trigger] ray(f, d, 2) == path[0] && hop(st.cells, st.player, f, d);
        lemma_ray(f, d);
    }
}

#[verifier::spinoff_prover]
proof fn lemma_mask_test(m: u64, s: int)
    requires
        0 <= s < 64,
    ensures
        (m & (1u64 << (s as u64)) != 0) == on(m, s),
{
    broadcast use group_has;

    let b = m & (1u64 << (s as u64));
    lemma_empty(b);
    assert(on(b, s) == on(m, s));
    if b != 0 {
        lemma_lowest(b);
    }
}

} // verus!
