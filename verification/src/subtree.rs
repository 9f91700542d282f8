//! Keeping the part of a search tree below a played move.
use vstd::prelude::*;
use crate::bitboard::BitBoard;
use crate::bitmove::BitMove;
use crate::retrograde::lemma_played_same;
use crate::tree::{
    child_moves, children_ok, expanded_ok, fits, is_child, lemma_turn_after, linked, parent_ok, place, player_ok,
    MCTSNode, Tree,
};

verus! {

/// The same word and path.
pub open spec fn alike(a: BitMove, b: BitMove) -> bool {
    a.packed == b.packed && a.path@ == b.path@
}

/// Node `j` of the new tree is node `origin[j]` of the old one, with its
/// children in the same order.
pub open spec fn kept<S>(old_nodes: Seq<MCTSNode<S>>, nodes: Seq<MCTSNode<S>>, origin: Seq<int>, j: int) -> bool {
    &&& 0 <= origin[j] < old_nodes.len()
    &&& nodes[j] == (MCTSNode {
        parent: nodes[j].parent,
        children_start: nodes[j].children_start,
        ..old_nodes[origin[j]]
    })
    &&& forall|k: int|
        is_child(nodes, j, k) ==> #[trigger] origin[k] == old_nodes[origin[j]].children_start + (k
            - nodes[j].children_start)
}

/// The new tree is the subtree of the old one below `origin[0]`.
#[verifier::opaque]
pub open spec fn is_subtree<S>(old_nodes: Seq<MCTSNode<S>>, nodes: Seq<MCTSNode<S>>, origin: Seq<int>) -> bool {
    &&& nodes.len() == origin.len()
    &&& nodes.len() > 0
    &&& linked(nodes)
    &&& forall|j: int| 0 <= j < nodes.len() ==> #[trigger] kept(old_nodes, nodes, origin, j)
}

/// A node of the subtree stands for the position of its origin.
proof fn lemma_subtree_place<S>(
    old_nodes: Seq<MCTSNode<S>>,
    nodes: Seq<MCTSNode<S>>,
    origin: Seq<int>,
    root: BitBoard,
    j: int,
)
    requires
        linked(old_nodes),
        is_subtree(old_nodes, nodes, origin),
        0 <= j < nodes.len(),
    ensures
        place(nodes, place(old_nodes, root, origin[0]), j) == place(old_nodes, root, origin[j]),
    decreases j,
{
    reveal(linked);
    reveal(is_subtree);
    assert(parent_ok(nodes, j));
    if let Some(p) = nodes[j].parent {
        lemma_subtree_place(old_nodes, nodes, origin, root, p as int);
        assert(is_child(nodes, p as int, j));
        assert(kept(old_nodes, nodes, origin, p as int));
        assert(kept(old_nodes, nodes, origin, j));
        let o = origin[p as int];
        assert(origin[j] == old_nodes[o].children_start + (j - nodes[p as int].children_start));
        assert(is_child(old_nodes, o, origin[j]));
        assert(children_ok(old_nodes, o));
        assert(old_nodes[origin[j]].parent == Some(o as usize));
        assert(parent_ok(old_nodes, origin[j]));
    }
}

/// The subtree holds the legal play from its root's position.
pub proof fn lemma_subtree_fits<S>(
    old_nodes: Seq<MCTSNode<S>>,
    nodes: Seq<MCTSNode<S>>,
    origin: Seq<int>,
    root: BitBoard,
)
    requires
        linked(old_nodes),
        fits(old_nodes, root),
        is_subtree(old_nodes, nodes, origin),
    ensures
        fits(nodes, place(old_nodes, root, origin[0])),
{
    let base = place(old_nodes, root, origin[0]);
    assert(nodes.len() > 0) by {
        reveal(is_subtree);
    }
    assert forall|i: int| 0 <= i < nodes.len() implies #[trigger] player_ok(nodes, base, i) by {
        lemma_subtree_place(old_nodes, nodes, origin, root, i);
        assert(kept(old_nodes, nodes, origin, i)) by {
            reveal(is_subtree);
        }
        assert(player_ok(old_nodes, root, origin[i])) by {
            reveal(fits);
        }
    }
    assert forall|i: int| 0 <= i < nodes.len() implies #[trigger] expanded_ok(nodes, base, i) by {
        lemma_subtree_place(old_nodes, nodes, origin, root, i);
        assert(kept(old_nodes, nodes, origin, i)) by {
            reveal(is_subtree);
        }
        assert(expanded_ok(old_nodes, root, origin[i])) by {
            reveal(fits);
        }
        lemma_subtree_moves(old_nodes, nodes, origin, i);
    }
    reveal(fits);
}

proof fn lemma_subtree_moves<S>(old_nodes: Seq<MCTSNode<S>>, nodes: Seq<MCTSNode<S>>, origin: Seq<int>, i: int)
    requires
        is_subtree(old_nodes, nodes, origin),
        0 <= i < nodes.len(),
    ensures
        child_moves(nodes, i) == child_moves(old_nodes, origin[i]),
{
    reveal(is_subtree);
    reveal(linked);
    assert(kept(old_nodes, nodes, origin, i));
    assert(children_ok(nodes, i));
    assert forall|k: int| 0 <= k < nodes[i].children_count implies child_moves(nodes, i)[k] == child_moves(
        old_nodes,
        origin[i],
    )[k] by {
        let c = nodes[i].children_start + k;
        assert(is_child(nodes, i, c));
        assert(origin[c] == old_nodes[origin[i]].children_start + k);
        assert(kept(old_nodes, nodes, origin, c));
    }
    assert(child_moves(nodes, i) =~= child_moves(old_nodes, origin[i]));
}

/// A list of different numbers below `n` has at most `n` of them.
proof fn lemma_distinct_bound(v: Seq<int>, n: int)
    requires
        v.no_duplicates(),
        n >= 0,
        forall|i: int| 0 <= i < v.len() ==> 0 <= #[trigger] v[i] < n,
    ensures
        v.len() <= n,
{
    v.unique_seq_to_set();
    let all = vstd::set_lib::set_int_range(0, n);
    vstd::set_lib::lemma_int_range(0, n);
    assert(v.to_set().subset_of(all)) by {
        assert forall|x: int| v.to_set().contains(x) implies all.contains(x) by {
            let i = choose|i: int| 0 <= i < v.len() && v[i] == x;
            assert(0 <= v[i] < n);
        }
    }
    vstd::set_lib::lemma_len_subset(v.to_set(), all);
}

/// The origins are different nodes at or behind the first one.
spec fn origins_ok<S>(old_nodes: Seq<MCTSNode<S>>, origin: Seq<int>) -> bool {
    &&& origin.no_duplicates()
    &&& forall|j: int| 0 <= j < origin.len() ==> 0 < origin[0] <= #[trigger] origin[j] < old_nodes.len()
}

/// The nodes are their origins but for the links.
spec fn data_ok<S>(old_nodes: Seq<MCTSNode<S>>, nodes: Seq<MCTSNode<S>>, origin: Seq<int>) -> bool {
    forall|j: int|
        0 <= j < nodes.len() ==> #[trigger] nodes[j] == (MCTSNode {
            parent: nodes[j].parent,
            children_start: nodes[j].children_start,
            ..old_nodes[origin[j]]
        })
}

/// The parent of a node is its origin's parent and has its children.
spec fn up_ok<S>(
    old_nodes: Seq<MCTSNode<S>>,
    nodes: Seq<MCTSNode<S>>,
    origin: Seq<int>,
    done: int,
    j: int,
) -> bool {
    &&& nodes[j].parent is Some
    &&& nodes[j].parent->0 < done
    &&& nodes[j].parent->0 < j
    &&& is_child(nodes, nodes[j].parent->0 as int, j)
    &&& old_nodes[origin[j]].parent == Some(origin[nodes[j].parent->0 as int] as usize)
}

/// The children of a node are its origin's children.
spec fn down_ok<S>(old_nodes: Seq<MCTSNode<S>>, nodes: Seq<MCTSNode<S>>, origin: Seq<int>, j: int) -> bool {
    &&& nodes[j].children_count > 0 ==> j < nodes[j].children_start && nodes[j].children_start
        + nodes[j].children_count <= nodes.len()
    &&& forall|k: int| #[trigger]
        is_child(nodes, j, k) ==> nodes[k].parent == Some(j as usize) && origin[k]
            == old_nodes[origin[j]].children_start + (k - nodes[j].children_start)
}

/// The subtree so far: the nodes before `done` have their children, the others
/// wait.
#[verifier::opaque]
spec fn partial<S>(old_nodes: Seq<MCTSNode<S>>, nodes: Seq<MCTSNode<S>>, origin: Seq<int>, done: int) -> bool {
    &&& nodes.len() == origin.len()
    &&& 0 <= done <= nodes.len()
    &&& nodes.len() > 0
    &&& nodes[0].parent is None
    &&& origins_ok(old_nodes, origin)
    &&& data_ok(old_nodes, nodes, origin)
    &&& forall|j: int| 0 < j < nodes.len() ==> #[trigger] up_ok(old_nodes, nodes, origin, done, j)
    &&& forall|j: int| 0 <= j < done ==> #[trigger] down_ok(old_nodes, nodes, origin, j)
}

proof fn lemma_partial_start<S>(old_nodes: Seq<MCTSNode<S>>, first: MCTSNode<S>, c: int)
    requires
        0 < c < old_nodes.len(),
        first == (MCTSNode { parent: None, ..old_nodes[c] }),
    ensures
        partial(old_nodes, seq![first], seq![c], 0),
{
    reveal(partial);
}

proof fn lemma_partial_done<S>(old_nodes: Seq<MCTSNode<S>>, nodes: Seq<MCTSNode<S>>, origin: Seq<int>)
    requires
        linked(old_nodes),
        partial(old_nodes, nodes, origin, nodes.len() as int),
    ensures
        is_subtree(old_nodes, nodes, origin),
{
    reveal(partial);
    reveal(linked);
    reveal(is_subtree);
    assert forall|j: int| 0 <= j < nodes.len() implies #[trigger] parent_ok(nodes, j) by {
        if j > 0 {
            assert(up_ok(old_nodes, nodes, origin, nodes.len() as int, j));
        }
    }
    assert forall|i: int| 0 <= i < nodes.len() implies #[trigger] children_ok(nodes, i) by {
        assert(0 < origin[0] <= origin[i] < old_nodes.len());
        assert(children_ok(old_nodes, origin[i]));
        assert(down_ok(old_nodes, nodes, origin, i));
        assert(nodes[i].is_terminal == old_nodes[origin[i]].is_terminal);
    }
    assert forall|i: int, j: int| 0 <= i < nodes.len() && #[trigger] is_child(nodes, i, j) implies nodes[j].parent
        == Some(i as usize) by {
        assert(down_ok(old_nodes, nodes, origin, i));
    }
    assert forall|j: int| 0 <= j < nodes.len() implies #[trigger] kept(old_nodes, nodes, origin, j) by {
        assert(0 < origin[0] <= origin[j] < old_nodes.len());
        assert(down_ok(old_nodes, nodes, origin, j));
    }
}

/// The children of node `done` are added behind the others.
spec fn extends<S>(
    old_nodes: Seq<MCTSNode<S>>,
    a: Seq<MCTSNode<S>>,
    origin: Seq<int>,
    done: int,
    b: Seq<MCTSNode<S>>,
    longer: Seq<int>,
) -> bool {
    let o = old_nodes[origin[done]];
    let n = a.len() as int;
    let c = o.children_count as int;
    &&& 0 <= done < n
    &&& n <= usize::MAX
    &&& origin.len() == n
    &&& b.len() == n + c
    &&& longer.len() == n + c
    &&& a[done].children_count == c
    &&& 0 <= origin[done] < old_nodes.len()
    &&& c > 0 ==> origin[done] < o.children_start && o.children_start + c <= old_nodes.len()
    &&& forall|k: int| 0 <= k < c ==> (#[trigger] old_nodes[o.children_start + k]).parent == Some(origin[done] as usize)
    &&& forall|j: int| 0 <= j < n ==> #[trigger] longer[j] == origin[j]
    &&& forall|j: int| n <= j < n + c ==> #[trigger] longer[j] == o.children_start + (j - n)
    &&& forall|j: int| 0 <= j < n && j != done ==> #[trigger] b[j] == a[j]
    &&& b[done] == (MCTSNode { children_start: n as usize, ..a[done] })
    &&& forall|j: int|
        n <= j < n + c ==> #[trigger] b[j] == (MCTSNode {
            parent: Some(done as usize),
            ..old_nodes[o.children_start + (j - n)]
        })
}

proof fn lemma_step_origins<S>(
    old_nodes: Seq<MCTSNode<S>>,
    a: Seq<MCTSNode<S>>,
    origin: Seq<int>,
    done: int,
    b: Seq<MCTSNode<S>>,
    longer: Seq<int>,
)
    requires
        partial(old_nodes, a, origin, done),
        extends(old_nodes, a, origin, done, b, longer),
        old_nodes.len() <= usize::MAX,
    ensures
        origins_ok(old_nodes, longer),
{
    reveal(partial);
    let n = a.len() as int;
    let o = old_nodes[origin[done]];
    assert forall|i: int, j: int| 0 <= i < j < longer.len() implies longer[i] != longer[j] by {
        if j >= n && i < n {
            assert(longer[i] == origin[i]);
            assert(longer[j] == o.children_start + (j - n));
            assert(old_nodes[o.children_start + (j - n)].parent == Some(origin[done] as usize));
            assert(origin[0] <= origin[done]);
            if i > 0 {
                assert(up_ok(old_nodes, a, origin, done, i));
                let p = a[i].parent->0 as int;
                assert(0 < origin[0] <= origin[p] < old_nodes.len());
                assert(origin[p] != origin[done]);
            }
        } else if j < n {
            assert(longer[i] == origin[i] && longer[j] == origin[j]);
        }
    }
    assert forall|j: int| 0 <= j < longer.len() implies 0 < longer[0] <= #[trigger] longer[j] < old_nodes.len() by {
        assert(longer[0] == origin[0]);
        assert(0 < origin[0] <= origin[done]);
        if j < n {
            assert(0 < origin[0] <= origin[j] < old_nodes.len());
        }
    }
}

proof fn lemma_step_data<S>(
    old_nodes: Seq<MCTSNode<S>>,
    a: Seq<MCTSNode<S>>,
    origin: Seq<int>,
    done: int,
    b: Seq<MCTSNode<S>>,
    longer: Seq<int>,
)
    requires
        partial(old_nodes, a, origin, done),
        extends(old_nodes, a, origin, done, b, longer),
    ensures
        data_ok(old_nodes, b, longer),
{
    reveal(partial);
    assert forall|j: int| 0 <= j < b.len() implies #[trigger] b[j] == (MCTSNode {
        parent: b[j].parent,
        children_start: b[j].children_start,
        ..old_nodes[longer[j]]
    }) by {
        if j < a.len() {
            assert(longer[j] == origin[j]);
            assert(a[j] == (MCTSNode {
                parent: a[j].parent,
                children_start: a[j].children_start,
                ..old_nodes[origin[j]]
            }));
            if j != done {
                assert(b[j] == a[j]);
            }
        }
    }
}

proof fn lemma_step_up<S>(
    old_nodes: Seq<MCTSNode<S>>,
    a: Seq<MCTSNode<S>>,
    origin: Seq<int>,
    done: int,
    b: Seq<MCTSNode<S>>,
    longer: Seq<int>,
    j: int,
)
    requires
        partial(old_nodes, a, origin, done),
        extends(old_nodes, a, origin, done, b, longer),
        0 < j < b.len(),
    ensures
        up_ok(old_nodes, b, longer, done + 1, j),
{
    reveal(partial);
    let n = a.len() as int;
    if j < n {
        assert(up_ok(old_nodes, a, origin, done, j));
        let p = a[j].parent->0 as int;
        assert(b[p] == a[p]);
        assert(longer[p] == origin[p] && longer[j] == origin[j]);
        if j != done {
            assert(b[j] == a[j]);
        }
        assert(b[j].parent == a[j].parent);
    } else {
        let o = old_nodes[origin[done]];
        assert(b[j].parent == Some(done as usize));
        assert(longer[j] == o.children_start + (j - n));
        assert(longer[done] == origin[done]);
        assert(old_nodes[o.children_start + (j - n)].parent == Some(origin[done] as usize));
        assert(is_child(b, done, j));
    }
}

proof fn lemma_step_down<S>(
    old_nodes: Seq<MCTSNode<S>>,
    a: Seq<MCTSNode<S>>,
    origin: Seq<int>,
    done: int,
    b: Seq<MCTSNode<S>>,
    longer: Seq<int>,
    j: int,
)
    requires
        partial(old_nodes, a, origin, done),
        extends(old_nodes, a, origin, done, b, longer),
        0 <= j <= done,
    ensures
        down_ok(old_nodes, b, longer, j),
{
    reveal(partial);
    let n = a.len() as int;
    assert(longer[j] == origin[j]);
    if j < done {
        assert(b[j] == a[j]);
        assert(down_ok(old_nodes, a, origin, j));
        assert forall|k: int| #[trigger] is_child(b, j, k) implies b[k].parent == Some(j as usize) && longer[k]
            == old_nodes[longer[j]].children_start + (k - b[j].children_start) by {
            assert(is_child(a, j, k));
            assert(k < n);
            assert(longer[k] == origin[k]);
            if k != done {
                assert(b[k] == a[k]);
            }
            assert(b[k].parent == a[k].parent);
        }
    } else {
        assert forall|k: int| #[trigger] is_child(b, j, k) implies b[k].parent == Some(j as usize) && longer[k]
            == old_nodes[longer[j]].children_start + (k - b[j].children_start) by {
            assert(n <= k < b.len());
        }
    }
}

/// Adds the children of the first waiting node.
proof fn lemma_partial_step<S>(
    old_nodes: Seq<MCTSNode<S>>,
    a: Seq<MCTSNode<S>>,
    origin: Seq<int>,
    done: int,
    b: Seq<MCTSNode<S>>,
    longer: Seq<int>,
)
    requires
        partial(old_nodes, a, origin, done),
        extends(old_nodes, a, origin, done, b, longer),
        old_nodes.len() <= usize::MAX,
    ensures
        partial(old_nodes, b, longer, done + 1),
{
    lemma_step_origins(old_nodes, a, origin, done, b, longer);
    lemma_step_data(old_nodes, a, origin, done, b, longer);
    assert forall|j: int| 0 < j < b.len() implies #[trigger] up_ok(old_nodes, b, longer, done + 1, j) by {
        lemma_step_up(old_nodes, a, origin, done, b, longer, j);
    }
    assert forall|j: int| 0 <= j < done + 1 implies #[trigger] down_ok(old_nodes, b, longer, j) by {
        lemma_step_down(old_nodes, a, origin, done, b, longer, j);
    }
    reveal(partial);
    if done != 0 {
        assert(b[0] == a[0]);
    }
}

impl<S: Copy> Tree<S> {
    /// The first child of the root with the move, if any.
    fn find_child(&self, mv: &BitMove) -> (r: Option<usize>)
        requires
            self.wf(),
        ensures
            match r {
                Some(c) => self.nodes@.len() > 0 && is_child(self.nodes@, 0, c as int) && 0 < c < self.nodes@.len()
                    && alike(self.nodes@[c as int].bitmove, *mv) && forall|k: int|
                    k < c && #[trigger] is_child(self.nodes@, 0, k) ==> !alike(self.nodes@[k].bitmove, *mv),
                None => self.nodes@.len() == 0 || forall|k: int| #[trigger]
                    is_child(self.nodes@, 0, k) ==> !alike(self.nodes@[k].bitmove, *mv),
            },
    {
        if self.nodes.len() == 0 || self.nodes[0].children_count == 0 {
            return None;
        }
        proof {
            reveal(linked);
            assert(children_ok(self.nodes@, 0));
        }
        let total: usize = self.nodes.len();
        let start: usize = self.nodes[0].children_start;
        let count: usize = self.nodes[0].children_count;
        let mut i: usize = 0;
        while i < count
            invariant
                i <= count,
                self.nodes@.len() > 0,
                start == self.nodes@[0].children_start,
                count == self.nodes@[0].children_count,
                0 < start,
                start + count <= total,
                total == self.nodes@.len(),
                forall|k: int| start <= k < start + i ==> !alike((#[trigger] self.nodes@[k]).bitmove, *mv),
            decreases count - i,
        {
            if self.nodes[start + i].bitmove.same(mv) {
                return Some(start + i);
            }
            i = i + 1;
        }
        None
    }

    /// Makes the root's child with this move the new root and keeps what is
    /// below it. Without such a child nothing is kept.
    pub fn retain_subtree(&mut self, mv: &BitMove) -> (r: bool)
        requires
            old(self).wf(),
        ensures
            final(self).wf(),
            r == (old(self).nodes@.len() > 0 && exists|k: int| #[trigger]
                is_child(old(self).nodes@, 0, k) && alike(old(self).nodes@[k].bitmove, *mv)),
            !r ==> final(self).nodes@.len() == 0,
            r ==> exists|origin: Seq<int>| #[trigger]
                is_subtree(old(self).nodes@, final(self).nodes@, origin) && is_child(old(self).nodes@, 0, origin[0])
                    && alike(old(self).nodes@[origin[0]].bitmove, *mv),
            r ==> forall|root: BitBoard| #[trigger] old(self).of(root) ==> final(self).of(root.played(*mv)),
    {
        let c: usize = match self.find_child(mv) {
            Some(c) => c,
            None => {
                self.nodes = Vec::new();
                proof {
                    reveal(linked);
                }
                return false;
            },
        };
        let ghost all = self.nodes@;
        let total: usize = self.nodes.len();
        let mut kept_nodes: Vec<MCTSNode<S>> = Vec::new();
        let mut origin: Vec<usize> = Vec::new();
        let mut first: MCTSNode<S> = self.nodes[c];
        first.parent = None;
        kept_nodes.push(first);
        origin.push(c);
        let mut done: usize = 0;
        let ghost from: Seq<int> = seq![c as int];
        proof {
            assert(kept_nodes@ =~= seq![first]);
            lemma_partial_start(all, first, c as int);
        }
        while done < kept_nodes.len()
            invariant
                all == self.nodes@,
                all.len() == total,
                linked(all),
                partial(all, kept_nodes@, from, done as int),
                from.len() == origin@.len(),
                from.len() == kept_nodes@.len(),
                from[0] == c,
                done <= kept_nodes@.len(),
                forall|j: int| 0 <= j < from.len() ==> #[trigger] from[j] == origin@[j],
            decreases all.len() - done,
        {
            proof {
                reveal(partial);
                lemma_distinct_bound(from, all.len() as int);
                assert(from[done as int] == origin@[done as int]);
                assert(0 < from[0] <= from[done as int] < all.len());
            }
            let old_idx: usize = origin[done];
            let node: MCTSNode<S> = self.nodes[old_idx];
            let count: usize = node.children_count;
            proof {
                reveal(linked);
                assert(children_ok(all, old_idx as int));
            }
            let ghost a = kept_nodes@;
            let ghost fa = from;
            let ghost fo = origin@;
            let n: usize = kept_nodes.len();
            let mut head: MCTSNode<S> = kept_nodes[done];
            head.children_start = n;
            kept_nodes.set(done, head);
            let mut i: usize = 0;
            while i < count
                invariant
                    i <= count,
                    all == self.nodes@,
                    all.len() == total,
                    old_idx < all.len(),
                    node == all[old_idx as int],
                    count == node.children_count,
                    count > 0 ==> node.children_start + count <= total,
                    done < n,
                    n == a.len(),
                    n == fo.len(),
                    kept_nodes@ =~= a.update(done as int, head) + Seq::new(
                        i as nat,
                        |k: int| MCTSNode { parent: Some(done), ..all[node.children_start + k] },
                    ),
                    origin@ =~= fo + Seq::new(i as nat, |k: int| (node.children_start + k) as usize),
                decreases count - i,
            {
                let at: usize = node.children_start + i;
                let mut child: MCTSNode<S> = self.nodes[at];
                child.parent = Some(done);
                kept_nodes.push(child);
                origin.push(at);
                i = i + 1;
            }
            proof {
                from = fa + Seq::new(count as nat, |k: int| node.children_start + k);
                assert forall|k: int| 0 <= k < count implies (#[trigger] all[node.children_start + k]).parent == Some(
                    old_idx,
                ) by {
                    assert(is_child(all, old_idx as int, node.children_start + k));
                }
                assert(extends(all, a, fa, done as int, kept_nodes@, from));
                assert forall|j: int| 0 <= j < from.len() implies #[trigger] from[j] == origin@[j] by {
                    if j < fa.len() {
                        assert(fa[j] == fo[j]);
                        assert(origin@[j] == fo[j]);
                    }
                }
                lemma_partial_step(all, a, fa, done as int, kept_nodes@, from);
            }
            done = done + 1;
        }
        proof {
            lemma_partial_done(all, kept_nodes@, from);
            reveal(is_subtree);
        }
        self.nodes = kept_nodes;
        proof {
            assert(is_child(all, 0, from[0]));
            assert(is_subtree(all, self.nodes@, from));
            assert forall|root: BitBoard| #[trigger] old(self).of(root) implies self.of(root.played(*mv)) by {
                lemma_subtree_fits(all, self.nodes@, from, root);
                lemma_child_place(all, root, c as int, *mv);
            }
        }
        true
    }
}

/// A child of the root stands for the position after its move.
proof fn lemma_child_place<S>(nodes: Seq<MCTSNode<S>>, root: BitBoard, c: int, mv: BitMove)
    requires
        linked(nodes),
        fits(nodes, root),
        is_child(nodes, 0, c),
        nodes.len() > 0,
        alike(nodes[c].bitmove, mv),
    ensures
        place(nodes, root, c) == root.played(mv),
{
    reveal(linked);
    reveal(fits);
    assert(children_ok(nodes, 0));
    assert(parent_ok(nodes, 0));
    assert(parent_ok(nodes, c));
    assert(nodes[c].parent == Some(0usize));
    assert(place(nodes, root, 0) == root);
    assert(expanded_ok(nodes, root, 0));
    lemma_turn_after(root, child_moves(nodes, 0), c - nodes[0].children_start);
    reveal(crate::node::is_legal);
    let m = nodes[c].bitmove;
    assert(m.landings() =~= mv.landings());
    assert(m@ == mv@);
    lemma_played_same(root, m, mv);
}

} // verus!
