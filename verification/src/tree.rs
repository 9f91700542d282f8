//! The search tree of the Monte Carlo search: nodes in one vector, the children
//! of a node side by side.
use vstd::prelude::*;
use crate::bitboard::BitBoard;
use crate::bitmove::BitMove;
use crate::board::Player;
use crate::movegen::lists_legal;
use crate::node::board_ok;

verus! {

/// A node. `S` holds what the evaluation keeps of it.
#[derive(Clone, Copy)]
pub struct MCTSNode<S> {
    /// The node this one was expanded from; the root has none.
    pub parent: Option<usize>,
    /// The first child, and how many there are.
    pub children_start: usize,
    pub children_count: usize,
    /// The move that led here.
    pub bitmove: BitMove,
    pub visit_count: u32,
    pub stats: S,
    /// The game is over here, and who has won it.
    pub is_terminal: bool,
    pub outcome: Option<Player>,
    pub player_is_white: bool,
}

impl<S: Copy> MCTSNode<S> {
    /// A node without children.
    pub open spec fn spec_leaf(parent: Option<usize>, bitmove: BitMove, stats: S, player_is_white: bool) -> Self {
        MCTSNode {
            parent,
            children_start: 0,
            children_count: 0,
            bitmove,
            visit_count: 0,
            stats,
            is_terminal: false,
            outcome: None,
            player_is_white,
        }
    }

    /// A node without children.
    pub fn leaf(parent: Option<usize>, bitmove: BitMove, stats: S, player_is_white: bool) -> (r: Self)
        ensures
            r == Self::spec_leaf(parent, bitmove, stats, player_is_white),
    {
        MCTSNode {
            parent,
            children_start: 0,
            children_count: 0,
            bitmove,
            visit_count: 0,
            stats,
            is_terminal: false,
            outcome: None,
            player_is_white,
        }
    }

    /// The node has children, or the game is over at it.
    pub fn is_expanded(&self) -> (r: bool)
        ensures
            r == (self.children_count > 0 || self.is_terminal),
    {
        self.children_count > 0 || self.is_terminal
    }
}

/// `j` is a child of `i`.
pub open spec fn is_child<S>(nodes: Seq<MCTSNode<S>>, i: int, j: int) -> bool {
    nodes[i].children_start <= j < nodes[i].children_start + nodes[i].children_count
}

/// The children of a node come behind it, in the vector.
pub open spec fn children_ok<S>(nodes: Seq<MCTSNode<S>>, i: int) -> bool {
    nodes[i].children_count > 0 ==> {
        &&& i < nodes[i].children_start
        &&& nodes[i].children_start + nodes[i].children_count <= nodes.len()
        &&& !nodes[i].is_terminal
    }
}

/// A node is a child of its parent; only the first node has none.
pub open spec fn parent_ok<S>(nodes: Seq<MCTSNode<S>>, j: int) -> bool {
    match nodes[j].parent {
        Some(p) => p < j && is_child(nodes, p as int, j),
        None => j == 0,
    }
}

/// The nodes form a tree: parents and children agree.
#[verifier::opaque]
pub open spec fn linked<S>(nodes: Seq<MCTSNode<S>>) -> bool {
    &&& forall|j: int| 0 <= j < nodes.len() ==> #[trigger] parent_ok(nodes, j)
    &&& forall|i: int| 0 <= i < nodes.len() ==> #[trigger] children_ok(nodes, i)
    &&& forall|i: int, j: int| 0 <= i < nodes.len() && #[trigger] is_child(nodes, i, j) ==> nodes[j].parent == Some(
        i as usize,
    )
}

/// The position of a node in a tree whose root stands for `root`.
pub open spec fn place<S>(nodes: Seq<MCTSNode<S>>, root: BitBoard, i: int) -> BitBoard
    decreases i,
{
    match nodes[i].parent {
        Some(p) => if p < i {
            place(nodes, root, p as int).played(nodes[i].bitmove)
        } else {
            root
        },
        None => root,
    }
}

/// The moves to the children of a node, in order.
pub open spec fn child_moves<S>(nodes: Seq<MCTSNode<S>>, i: int) -> Seq<BitMove> {
    Seq::new(nodes[i].children_count as nat, |k: int| nodes[nodes[i].children_start + k].bitmove)
}

/// A game position with room to go on, and all its legal moves.
#[verifier::opaque]
pub open spec fn goes_on(bb: BitBoard, moves: Seq<BitMove>) -> bool {
    board_ok(bb, 1) && lists_legal(moves, bb@)
}

/// A node with children stands for a game position, and its children for all
/// legal moves.
pub open spec fn expanded_ok<S>(nodes: Seq<MCTSNode<S>>, root: BitBoard, i: int) -> bool {
    nodes[i].children_count > 0 ==> goes_on(place(nodes, root, i), child_moves(nodes, i))
}

/// A listed move is followed by a turn of the other player, a pail placement
/// by the same player's barrel move.
pub proof fn lemma_turn_after(bb: BitBoard, moves: Seq<BitMove>, k: int)
    requires
        goes_on(bb, moves),
        0 <= k < moves.len(),
    ensures
        moves[k].valid(),
        crate::node::is_legal(bb, moves[k]),
        (bb.played(moves[k]).current_player == Player::White) == (if moves[k].pail_only() {
            bb.current_player == Player::White
        } else {
            bb.current_player != Player::White
        }),
{
    reveal(goes_on);
    reveal(crate::node::is_legal);
    crate::retrograde::lemma_listed_legal(moves, bb@, k);
    crate::node::lemma_next_player(bb, moves[k]);
}

/// A node knows who is to move, and whether the game is over is known of it
/// only where it is.
pub open spec fn player_ok<S>(nodes: Seq<MCTSNode<S>>, root: BitBoard, i: int) -> bool {
    nodes[i].player_is_white == (place(nodes, root, i).current_player == Player::White)
}

/// The tree holds the legal play from `root`.
#[verifier::opaque]
pub open spec fn fits<S>(nodes: Seq<MCTSNode<S>>, root: BitBoard) -> bool {
    &&& nodes.len() > 0
    &&& forall|i: int| 0 <= i < nodes.len() ==> #[trigger] expanded_ok(nodes, root, i)
    &&& forall|i: int| 0 <= i < nodes.len() ==> #[trigger] player_ok(nodes, root, i)
}

/// Two trees differ in visits and stats only.
pub open spec fn same_shape<S>(a: Seq<MCTSNode<S>>, b: Seq<MCTSNode<S>>) -> bool {
    a.len() == b.len() && forall|i: int|
        0 <= i < a.len() ==> b[i] == (MCTSNode { visit_count: b[i].visit_count, stats: b[i].stats, ..#[trigger] a[i] })
}

pub proof fn lemma_same_place<S>(a: Seq<MCTSNode<S>>, b: Seq<MCTSNode<S>>, root: BitBoard, i: int)
    requires
        0 <= i < a.len() <= b.len(),
        forall|k: int|
            0 <= k < a.len() ==> (#[trigger] b[k]).parent == a[k].parent && b[k].bitmove == a[k].bitmove,
    ensures
        place(a, root, i) == place(b, root, i),
    decreases i,
{
    assert(b[i].parent == a[i].parent && b[i].bitmove == a[i].bitmove);
    if let Some(p) = a[i].parent {
        if p < i {
            lemma_same_place(a, b, root, p as int);
        }
    }
}

/// The links do not depend on visits and stats.
pub proof fn lemma_same_linked<S>(a: Seq<MCTSNode<S>>, b: Seq<MCTSNode<S>>)
    requires
        same_shape(a, b),
        linked(a),
    ensures
        linked(b),
{
    reveal(linked);
    assert forall|j: int| 0 <= j < b.len() implies #[trigger] parent_ok(b, j) by {
        assert(parent_ok(a, j));
        assert(a[j].parent == b[j].parent);
        if let Some(p) = a[j].parent {
            assert(a[p as int].children_start == b[p as int].children_start);
        }
    }
    assert forall|i: int| 0 <= i < b.len() implies #[trigger] children_ok(b, i) by {
        assert(children_ok(a, i));
        assert(a[i].children_start == b[i].children_start);
    }
    assert forall|i: int, j: int| 0 <= i < b.len() && #[trigger] is_child(b, i, j) implies b[j].parent == Some(
        i as usize,
    ) by {
        assert(a[i].children_start == b[i].children_start);
        assert(is_child(a, i, j));
        assert(children_ok(a, i));
        assert(a[j].parent == b[j].parent);
    }
}

/// What the tree stands for does not depend on visits and stats.
pub proof fn lemma_same_shape<S>(a: Seq<MCTSNode<S>>, b: Seq<MCTSNode<S>>, root: BitBoard)
    requires
        same_shape(a, b),
        linked(a),
        fits(a, root),
    ensures
        linked(b),
        fits(b, root),
        forall|i: int| 0 <= i < a.len() ==> #[trigger] place(a, root, i) == place(b, root, i),
{
    lemma_same_linked(a, b);
    reveal(linked);
    reveal(fits);
    assert forall|i: int| 0 <= i < a.len() implies #[trigger] place(a, root, i) == place(b, root, i) by {
        lemma_same_place(a, b, root, i);
    }
    assert forall|i: int| 0 <= i < b.len() implies #[trigger] player_ok(b, root, i) by {
        assert(player_ok(a, root, i));
        lemma_same_place(a, b, root, i);
        assert(a[i].player_is_white == b[i].player_is_white);
    }
    assert forall|i: int| 0 <= i < b.len() implies #[trigger] expanded_ok(b, root, i) by {
        assert(expanded_ok(a, root, i));
        assert(children_ok(a, i));
        assert(a[i].children_start == b[i].children_start);
        lemma_same_place(a, b, root, i);
        assert forall|k: int| 0 <= k < a[i].children_count implies child_moves(a, i)[k] == child_moves(b, i)[k] by {
            assert(a[a[i].children_start + k].bitmove == b[a[i].children_start + k].bitmove);
        }
        assert(child_moves(a, i) =~= child_moves(b, i));
    }
}

/// `k` is `from` or one of the nodes above it.
pub open spec fn on_path<S>(nodes: Seq<MCTSNode<S>>, from: int, k: int) -> bool
    decreases from,
{
    k == from || match nodes[from].parent {
        Some(p) => p < from && on_path(nodes, p as int, k),
        None => false,
    }
}

/// The nodes after `node` got a child for every move.
pub open spec fn grown<S: Copy>(
    nodes: Seq<MCTSNode<S>>,
    node: int,
    moves: Seq<BitMove>,
    stats: Seq<S>,
    white: bool,
) -> Seq<MCTSNode<S>> {
    nodes.update(
        node,
        MCTSNode { children_start: nodes.len() as usize, children_count: moves.len() as usize, ..nodes[node] },
    ) + Seq::new(
        moves.len(),
        |k: int|
            MCTSNode::spec_leaf(
                Some(node as usize),
                moves[k],
                stats[k],
                if moves[k].pail_only() {
                    white
                } else {
                    !white
                },
            ),
    )
}

/// The grown nodes: the old ones but for the leaf, then the children.
proof fn lemma_grown_nodes<S: Copy>(
    nodes: Seq<MCTSNode<S>>,
    node: int,
    moves: Seq<BitMove>,
    stats: Seq<S>,
    white: bool,
    b: Seq<MCTSNode<S>>,
)
    requires
        0 <= node < nodes.len(),
        b == grown(nodes, node, moves, stats, white),
    ensures
        b.len() == nodes.len() + moves.len(),
        forall|i: int| 0 <= i < nodes.len() && i != node ==> #[trigger] b[i] == nodes[i],
        b[node] == (MCTSNode {
            children_start: nodes.len() as usize,
            children_count: moves.len() as usize,
            ..nodes[node]
        }),
        forall|i: int|
            nodes.len() <= i < b.len() ==> #[trigger] b[i] == MCTSNode::spec_leaf(
                Some(node as usize),
                moves[i - nodes.len()],
                stats[i - nodes.len()],
                if moves[i - nodes.len()].pail_only() {
                    white
                } else {
                    !white
                },
            ),
{
}

proof fn lemma_grown_linked<S: Copy>(
    nodes: Seq<MCTSNode<S>>,
    node: int,
    moves: Seq<BitMove>,
    b: Seq<MCTSNode<S>>,
)
    requires
        linked(nodes),
        0 <= node < nodes.len(),
        b.len() == nodes.len() + moves.len() <= usize::MAX,
        nodes[node].children_count == 0,
        !nodes[node].is_terminal,
        forall|i: int| 0 <= i < nodes.len() && i != node ==> #[trigger] b[i] == nodes[i],
        b[node] == (MCTSNode {
            children_start: nodes.len() as usize,
            children_count: moves.len() as usize,
            ..nodes[node]
        }),
        forall|i: int|
            nodes.len() <= i < b.len() ==> (#[trigger] b[i]).parent == Some(node as usize) && b[i].children_count == 0,
    ensures
        linked(b),
{
    reveal(linked);
    let n = nodes.len() as int;
    assert forall|j: int| 0 <= j < b.len() implies #[trigger] parent_ok(b, j) by {
        if j < n {
            assert(parent_ok(nodes, j));
            assert(b[j].parent == nodes[j].parent);
            if let Some(p) = nodes[j].parent {
                assert(is_child(nodes, p as int, j));
                assert(p != node);
                assert(b[p as int] == nodes[p as int]);
            }
        } else {
            assert(b[j].parent == Some(node as usize));
        }
    }
    assert forall|i: int| 0 <= i < b.len() implies #[trigger] children_ok(b, i) by {
        if i < n {
            assert(children_ok(nodes, i));
            if i != node {
                assert(b[i] == nodes[i]);
            }
        } else {
            assert(b[i].children_count == 0);
        }
    }
    assert forall|i: int, j: int| 0 <= i < b.len() && #[trigger] is_child(b, i, j) implies b[j].parent == Some(
        i as usize,
    ) by {
        if i < n && i != node {
            assert(b[i] == nodes[i]);
            assert(children_ok(nodes, i));
            assert(is_child(nodes, i, j));
            assert(nodes[j].parent == Some(i as usize));
            assert(b[j].parent == nodes[j].parent);
        } else if i >= n {
            assert(b[i].children_count == 0);
        } else {
            assert(b[j].parent == Some(node as usize));
        }
    }
}

proof fn lemma_grown_moves<S: Copy>(
    nodes: Seq<MCTSNode<S>>,
    node: int,
    moves: Seq<BitMove>,
    b: Seq<MCTSNode<S>>,
    i: int,
)
    requires
        linked(nodes),
        0 <= node < nodes.len(),
        0 <= i < nodes.len(),
        b.len() == nodes.len() + moves.len() <= usize::MAX,
        nodes[node].children_count == 0,
        forall|i: int| 0 <= i < nodes.len() && i != node ==> #[trigger] b[i] == nodes[i],
        b[node] == (MCTSNode {
            children_start: nodes.len() as usize,
            children_count: moves.len() as usize,
            ..nodes[node]
        }),
        forall|i: int| nodes.len() <= i < b.len() ==> (#[trigger] b[i]).bitmove == moves[i - nodes.len()],
    ensures
        child_moves(b, i) == if i == node {
            moves
        } else {
            child_moves(nodes, i)
        },
{
    reveal(linked);
    assert(children_ok(nodes, i));
    if i == node {
        assert(child_moves(b, i) =~= moves);
    } else {
        assert(b[i] == nodes[i]);
        assert forall|k: int| 0 <= k < nodes[i].children_count implies child_moves(b, i)[k] == child_moves(nodes, i)[k] by {
            let c = nodes[i].children_start + k;
            assert(b[c].bitmove == nodes[c].bitmove);
        }
        assert(child_moves(b, i) =~= child_moves(nodes, i));
    }
}

/// A leaf with its legal moves as children is a tree of legal play again.
pub proof fn lemma_grown<S: Copy>(
    nodes: Seq<MCTSNode<S>>,
    node: int,
    moves: Seq<BitMove>,
    stats: Seq<S>,
    white: bool,
    root: BitBoard,
)
    requires
        linked(nodes),
        fits(nodes, root),
        0 <= node < nodes.len(),
        nodes.len() + moves.len() <= usize::MAX,
        nodes[node].children_count == 0,
        !nodes[node].is_terminal,
        moves.len() > 0,
        goes_on(place(nodes, root, node), moves),
        white == (place(nodes, root, node).current_player == Player::White),
    ensures
        linked(grown(nodes, node, moves, stats, white)),
        fits(grown(nodes, node, moves, stats, white), root),
        forall|i: int|
            0 <= i < nodes.len() ==> place(nodes, root, i) == #[trigger] place(
                grown(nodes, node, moves, stats, white),
                root,
                i,
            ),
{
    let b = grown(nodes, node, moves, stats, white);
    let n = nodes.len() as int;
    lemma_grown_nodes(nodes, node, moves, stats, white, b);
    lemma_grown_linked(nodes, node, moves, b);
    assert forall|k: int| 0 <= k < n implies (#[trigger] b[k]).parent == nodes[k].parent && b[k].bitmove
        == nodes[k].bitmove by {
        if k != node {
            assert(b[k] == nodes[k]);
        }
    }
    assert forall|i: int| 0 <= i < n implies place(nodes, root, i) == #[trigger] place(b, root, i) by {
        lemma_same_place(nodes, b, root, i);
    }
    assert forall|i: int| 0 <= i < b.len() implies #[trigger] expanded_ok(b, root, i) by {
        lemma_grown_expanded(nodes, node, moves, b, root, i);
    }
    assert forall|i: int| 0 <= i < b.len() implies #[trigger] player_ok(b, root, i) by {
        lemma_grown_player(nodes, node, moves, white, b, root, i);
    }
    reveal(fits);
}

proof fn lemma_grown_expanded<S: Copy>(
    nodes: Seq<MCTSNode<S>>,
    node: int,
    moves: Seq<BitMove>,
    b: Seq<MCTSNode<S>>,
    root: BitBoard,
    i: int,
)
    requires
        linked(nodes),
        fits(nodes, root),
        0 <= node < nodes.len(),
        0 <= i < b.len(),
        b.len() == nodes.len() + moves.len() <= usize::MAX,
        nodes[node].children_count == 0,
        goes_on(place(nodes, root, node), moves),
        forall|i: int| 0 <= i < nodes.len() && i != node ==> #[trigger] b[i] == nodes[i],
        b[node] == (MCTSNode {
            children_start: nodes.len() as usize,
            children_count: moves.len() as usize,
            ..nodes[node]
        }),
        forall|i: int|
            nodes.len() <= i < b.len() ==> (#[trigger] b[i]).bitmove == moves[i - nodes.len()] && b[i].children_count == 0,
        forall|i: int| 0 <= i < nodes.len() ==> place(nodes, root, i) == #[trigger] place(b, root, i),
    ensures
        expanded_ok(b, root, i),
{
    if i < nodes.len() {
        assert(place(nodes, root, i) == place(b, root, i));
        lemma_grown_moves(nodes, node, moves, b, i);
        assert(expanded_ok(nodes, root, i)) by {
            reveal(fits);
        }
    }
}

proof fn lemma_grown_player<S: Copy>(
    nodes: Seq<MCTSNode<S>>,
    node: int,
    moves: Seq<BitMove>,
    white: bool,
    b: Seq<MCTSNode<S>>,
    root: BitBoard,
    i: int,
)
    requires
        fits(nodes, root),
        0 <= node < nodes.len(),
        0 <= i < b.len(),
        b.len() == nodes.len() + moves.len() <= usize::MAX,
        goes_on(place(nodes, root, node), moves),
        white == (place(nodes, root, node).current_player == Player::White),
        forall|i: int| 0 <= i < nodes.len() && i != node ==> #[trigger] b[i] == nodes[i],
        b[node].player_is_white == nodes[node].player_is_white,
        forall|i: int|
            nodes.len() <= i < b.len() ==> (#[trigger] b[i]).bitmove == moves[i - nodes.len()] && b[i].parent == Some(
                node as usize,
            ) && b[i].player_is_white == if moves[i - nodes.len()].pail_only() {
                white
            } else {
                !white
            },
        forall|i: int| 0 <= i < nodes.len() ==> place(nodes, root, i) == #[trigger] place(b, root, i),
    ensures
        player_ok(b, root, i),
{
    let n = nodes.len() as int;
    if i < n {
        assert(player_ok(nodes, root, i)) by {
            reveal(fits);
        }
        assert(place(nodes, root, i) == place(b, root, i));
    } else {
        let here = place(nodes, root, node);
        assert(place(b, root, node) == here);
        lemma_turn_after(here, moves, i - n);
        assert(b[i].bitmove == moves[i - n]);
    }
}

/// A tree of nodes.
pub struct Tree<S> {
    pub nodes: Vec<MCTSNode<S>>,
}

impl<S: Copy> Tree<S> {
    /// The nodes form a tree.
    pub open spec fn wf(&self) -> bool {
        linked(self.nodes@)
    }

    /// The tree holds the legal play from a position.
    pub open spec fn of(&self, root: BitBoard) -> bool {
        linked(self.nodes@) && fits(self.nodes@, root)
    }

    /// A tree without nodes.
    pub fn new() -> (r: Self)
        ensures
            r.nodes@.len() == 0,
            r.wf(),
    {
        reveal(linked);
        Tree { nodes: Vec::new() }
    }

    /// A tree of one node.
    pub fn root(bitmove: BitMove, stats: S, player_is_white: bool) -> (r: Self)
        ensures
            r.nodes@ == seq![MCTSNode::spec_leaf(None, bitmove, stats, player_is_white)],
            r.wf(),
            forall|b: BitBoard| player_is_white == (b.current_player == Player::White) ==> #[trigger] r.of(b),
            forall|b: BitBoard| #[trigger] place(r.nodes@, b, 0) == b,
    {
        reveal(linked);
        reveal(fits);
        let mut nodes: Vec<MCTSNode<S>> = Vec::new();
        nodes.push(MCTSNode::leaf(None, bitmove, stats, player_is_white));
        Tree { nodes }
    }

    /// Gives a leaf a child for every move. A pail placement keeps the player
    /// to move, any other move changes it.
    pub fn expand(&mut self, node: usize, moves: &Vec<BitMove>, stats: &Vec<S>, white: bool)
        requires
            node < old(self).nodes@.len(),
            moves@.len() == stats@.len(),
            old(self).nodes@.len() + moves@.len() <= usize::MAX,
            forall|k: int| 0 <= k < moves@.len() ==> (#[trigger] moves@[k]).valid(),
        ensures
            final(self).nodes@ == grown(old(self).nodes@, node as int, moves@, stats@, white),
    {
        let ghost before = self.nodes@;
        let start: usize = self.nodes.len();
        let ghost g = grown(before, node as int, moves@, stats@, white);
        let mut n: MCTSNode<S> = self.nodes[node];
        n.children_start = start;
        n.children_count = moves.len();
        self.nodes.set(node, n);
        assert(self.nodes@ =~= g.subrange(0, start as int));
        let mut k: usize = 0;
        while k < moves.len()
            invariant
                k <= moves@.len(),
                moves@.len() == stats@.len(),
                start == before.len(),
                node < start,
                start + moves@.len() <= usize::MAX,
                g == grown(before, node as int, moves@, stats@, white),
                g.len() == start + moves@.len(),
                self.nodes@ =~= g.subrange(0, start + k),
                forall|k: int| 0 <= k < moves@.len() ==> (#[trigger] moves@[k]).valid(),
            decreases moves@.len() - k,
        {
            let child_white: bool = if moves[k].is_pail_placement() { white } else { !white };
            let ghost prev = self.nodes@;
            self.nodes.push(MCTSNode::leaf(Some(node), moves[k], stats[k], child_white));
            k = k + 1;
            assert(self.nodes@ =~= g.subrange(0, start + k)) by {
                assert(g[start + k - 1] == self.nodes@[start + k - 1]);
                assert(prev =~= g.subrange(0, start + k - 1));
            }
        }
        assert(self.nodes@ =~= g);
    }

    /// Marks a leaf at which the game is over.
    pub fn mark_terminal(&mut self, node: usize, outcome: Option<Player>)
        requires
            old(self).wf(),
            node < old(self).nodes@.len(),
            old(self).nodes@[node as int].children_count == 0,
        ensures
            final(self).wf(),
            final(self).nodes@ == old(self).nodes@.update(
                node as int,
                MCTSNode { is_terminal: true, outcome, ..old(self).nodes@[node as int] },
            ),
            forall|b: BitBoard| #[trigger] old(self).of(b) ==> final(self).of(b),
    {
        let mut n: MCTSNode<S> = self.nodes[node];
        n.is_terminal = true;
        n.outcome = outcome;
        let ghost before = self.nodes@;
        self.nodes.set(node, n);
        proof {
            lemma_marked(before, self.nodes@, node as int);
            assert forall|b: BitBoard| #[trigger] old(self).of(b) implies self.of(b) by {
                lemma_marked_fits(before, self.nodes@, node as int, b);
            }
        }
    }
}

proof fn lemma_marked<S>(a: Seq<MCTSNode<S>>, b: Seq<MCTSNode<S>>, node: int)
    requires
        linked(a),
        0 <= node < a.len(),
        a[node].children_count == 0,
        b == a.update(node, MCTSNode { is_terminal: b[node].is_terminal, outcome: b[node].outcome, ..a[node] }),
    ensures
        linked(b),
{
    reveal(linked);
    assert forall|j: int| 0 <= j < b.len() implies #[trigger] parent_ok(b, j) by {
        assert(parent_ok(a, j));
    }
    assert forall|i: int| 0 <= i < b.len() implies #[trigger] children_ok(b, i) by {
        assert(children_ok(a, i));
    }
    assert forall|i: int, j: int| 0 <= i < b.len() && #[trigger] is_child(b, i, j) implies b[j].parent == Some(
        i as usize,
    ) by {
        assert(is_child(a, i, j));
        assert(children_ok(a, i));
    }
}

proof fn lemma_marked_fits<S>(a: Seq<MCTSNode<S>>, b: Seq<MCTSNode<S>>, node: int, root: BitBoard)
    requires
        linked(a),
        fits(a, root),
        0 <= node < a.len(),
        a[node].children_count == 0,
        b == a.update(node, MCTSNode { is_terminal: b[node].is_terminal, outcome: b[node].outcome, ..a[node] }),
    ensures
        fits(b, root),
        forall|i: int| 0 <= i < a.len() ==> place(a, root, i) == #[trigger] place(b, root, i),
{
    reveal(linked);
    reveal(fits);
    assert forall|i: int| 0 <= i < a.len() implies place(a, root, i) == #[trigger] place(b, root, i) by {
        lemma_same_place(a, b, root, i);
    }
    assert forall|i: int| 0 <= i < b.len() implies #[trigger] player_ok(b, root, i) by {
        assert(player_ok(a, root, i));
    }
    assert forall|i: int| 0 <= i < b.len() implies #[trigger] expanded_ok(b, root, i) by {
        assert(expanded_ok(a, root, i));
        assert(children_ok(a, i));
        assert(child_moves(a, i) =~= child_moves(b, i));
    }
}

} // verus!
