//! Walking a search tree: down to a leaf, and back up counting visits.
use vstd::prelude::*;
use crate::bitboard::BitBoard;
use crate::bitmove::BitMove;
use crate::board::Player;
use crate::judged::{favoured, gives_step, leads, led_to, restated, takes_lead};
use crate::node::{board_ok, can_act, is_legal, legal_moves};
use crate::retrograde::lemma_listed_playable;
use crate::tree::{
    child_moves, children_ok, expanded_ok, fits, goes_on, grown, is_child, lemma_same_linked, lemma_same_shape,
    lemma_turn_after, linked, on_path, parent_ok, place, same_shape, MCTSNode, Tree,
};

verus! {

/// The judgement a search leans on. `W` is a worth, a number between a loss
/// and a win; `S` is what a node keeps of the worths and the prior it got.
pub trait Appraiser<S, W> {
    /// The worth of a draw, and of a won game.
    fn zero(&self) -> W;

    fn one(&self) -> W;

    /// The worth for the other side.
    fn negated(&self, w: W) -> W;

    /// The worth of an evaluation in centipawns.
    fn of_score(&self, score: i32) -> W;

    /// One of `n` equal shares.
    fn uniform(&self, n: usize) -> W;

    /// The shares of the moves in a policy's outputs.
    fn priors(&self, logits: &Vec<W>, moves: &Vec<BitMove>) -> Vec<W>;

    /// What a new node keeps of its prior.
    fn fresh(&self, prior: W) -> S;

    /// What a node keeps after a visit of this worth for white.
    fn credit(&self, s: S, w: W) -> S;

    /// What a node keeps while a visit is pending, and afterwards.
    fn debit(&self, s: S) -> S;

    fn restore(&self, s: S) -> S;

    /// What a node keeps after its prior is mixed with noise.
    fn mix(&self, s: S, noise: W) -> S;

    /// How promising a child of a node is, against the lowest promise.
    fn promise(&self, node: &MCTSNode<S>, child: &MCTSNode<S>) -> W;

    fn lowest(&self) -> W;

    fn exceeds(&self, a: W, b: W) -> bool;

    /// The mean worth of a node.
    fn mean(&self, s: S, visits: u32) -> W;

    /// A sum with a share of the visits added.
    fn add_share(&self, sum: W, visits: u32, total: u32) -> W;

    /// Some share is left after raising all to the reciprocal of a temperature.
    fn has_mass(&self, shares: &Vec<W>, temperature: W) -> bool;

    /// A choice among shares, or visits, raised to the reciprocal of a
    /// temperature, by a random fraction of 2^53.
    fn pick_share(&self, shares: &Vec<W>, temperature: W, fraction: u64) -> usize;

    fn pick_visits(&self, visits: &Vec<u32>, temperature: W, fraction: u64) -> usize;

    /// The shares of moves by evaluations in centipawns for the side to move.
    fn soft_policy(&self, scores: &Vec<i32>) -> Vec<W>;

    /// The worth of a search score, between a loss and a win.
    fn clamped(&self, score: i32) -> W;

    /// The number is above zero; it is at least one; a fraction of 2^53 is
    /// below it.
    fn positive(&self, w: W) -> bool;

    fn at_least_one(&self, w: W) -> bool;

    fn exceeds_fraction(&self, w: W, fraction: u64) -> bool;
}

/// Where a search gets what it cannot compute: chance, and a network.
pub trait Oracle<W> {
    /// Noise for `n` moves.
    fn noise(&mut self, n: usize) -> Vec<W>;

    /// A network's outputs and worth for one position, or for several.
    fn evaluate_one(&mut self, planes: &Vec<W>) -> Option<(Vec<W>, W)>;

    fn evaluate_batch(&mut self, planes: &Vec<Vec<W>>) -> Option<(Vec<Vec<W>>, Vec<W>)>;
}

/// A position at the end of a walk: the game is over, or it goes on with these
/// moves.
pub enum Leaf {
    Over(Option<Player>),
    Open(Vec<BitMove>),
}

/// How a game stands: won, or without a move or room for one, or going on.
pub fn classify(bb: &BitBoard) -> (r: Leaf)
    requires
        board_ok(*bb, 0),
    ensures
        match r {
            Leaf::Over(outcome) => outcome == bb@.winner() && (outcome is Some || !can_act(*bb) || !board_ok(*bb, 1)),
            Leaf::Open(moves) => goes_on(*bb, moves@) && moves@.len() > 0 && can_act(*bb) && bb@.winner() is None,
        },
{
    if let Some(winner) = bb.check_winner() {
        return Leaf::Over(Some(winner));
    }
    let moves = legal_moves(bb, Ghost(0));
    let room: bool = bb.move_count < u32::MAX && bb.halfmove_clock < u16::MAX;
    proof {
        reveal(board_ok);
        reveal(goes_on);
    }
    if moves.len() == 0 || !room {
        return Leaf::Over(None);
    }
    Leaf::Open(moves)
}

/// Every position of the tree is a game position.
pub proof fn lemma_place_ok<S>(nodes: Seq<MCTSNode<S>>, root: BitBoard, i: int)
    requires
        linked(nodes),
        fits(nodes, root),
        board_ok(root, 0),
        0 <= i < nodes.len(),
    ensures
        board_ok(place(nodes, root, i), 0),
{
    assert(parent_ok(nodes, i)) by {
        reveal(linked);
    }
    if let Some(p) = nodes[i].parent {
        let here = place(nodes, root, p as int);
        assert(expanded_ok(nodes, root, p as int)) by {
            reveal(fits);
        }
        let k = i - nodes[p as int].children_start;
        let moves = child_moves(nodes, p as int);
        assert(moves[k] == nodes[i].bitmove);
        lemma_turn_after(here, moves, k);
        lemma_child_ok(here, moves[k], moves);
    }
}

pub(crate) proof fn lemma_child_ok(bb: BitBoard, m: BitMove, moves: Seq<BitMove>)
    requires
        goes_on(bb, moves),
        is_legal(bb, m),
    ensures
        board_ok(bb.played(m), 0),
        bb.playable(m),
{
    reveal(goes_on);
    reveal(board_ok);
    reveal(is_legal);
    lemma_listed_playable(bb, m);
    bb.lemma_played(m);
}

impl<S: Copy> Tree<S> {
    /// The most promising child of a node: each child in turn takes the lead if
    /// its promise exceeds that of the leader.
    pub fn select_child<W: Copy, A: Appraiser<S, W>>(&self, node: usize, appraiser: &A) -> (r: usize)
        requires
            self.wf(),
            node < self.nodes@.len(),
            self.nodes@[node as int].children_count > 0,
        ensures
            is_child(self.nodes@, node as int, r as int),
            r < self.nodes@.len(),
            favoured(*appraiser, self.nodes@, node as int, r as int),
    {
        proof {
            reveal(linked);
            assert(children_ok(self.nodes@, node as int));
        }
        let total: usize = self.nodes.len();
        let start: usize = self.nodes[node].children_start;
        let count: usize = self.nodes[node].children_count;
        let mut best: usize = start;
        let mut best_promise: W = appraiser.lowest();
        let mut i: usize = 0;
        let ghost mut trail: Seq<(int, W)> = seq![(start as int, best_promise)];
        proof {
            reveal(leads);
        }
        while i < count
            invariant
                i <= count,
                total == self.nodes@.len(),
                node < total,
                start == self.nodes@[node as int].children_start,
                count == self.nodes@[node as int].children_count,
                start + count <= total,
                is_child(self.nodes@, node as int, best as int),
                trail.len() == i + 1,
                trail.last() == (best as int, best_promise),
                leads(*appraiser, self.nodes@, node as int, trail),
            decreases count - i,
        {
            let ghost before = trail;
            let ghost was = (best as int, best_promise);
            let c: usize = start + i;
            let promise: W = appraiser.promise(&self.nodes[node], &self.nodes[c]);
            if appraiser.exceeds(promise, best_promise) {
                best_promise = promise;
                best = c;
            }
            proof {
                reveal(leads);
                let now = (best as int, best_promise);
                trail = trail.push(now);
                assert(takes_lead(*appraiser, self.nodes@, node as int, c as int, was, now));
                assert forall|k: int| 0 <= k < trail.len() - 1 implies takes_lead(
                    *appraiser,
                    self.nodes@,
                    node as int,
                    start + k,
                    #[trigger] trail[k],
                    trail[k + 1],
                ) by {
                    if k < before.len() - 1 {
                        assert(trail[k] == before[k] && trail[k + 1] == before[k + 1]);
                    }
                }
            }
            i = i + 1;
        }
        proof {
            reveal(favoured);
            assert(leads(*appraiser, self.nodes@, node as int, trail));
        }
        best
    }

    /// Walks from the root to a leaf, along the most promising children, and
    /// plays their moves.
    pub fn descend<W: Copy, A: Appraiser<S, W>>(&self, bb: &BitBoard, appraiser: &A) -> (r: (usize, BitBoard))
        requires
            self.of(*bb),
            board_ok(*bb, 0),
            self.nodes@.len() > 0,
        ensures
            r.0 < self.nodes@.len(),
            r.1 == place(self.nodes@, *bb, r.0 as int),
            board_ok(r.1, 0),
            self.nodes@[r.0 as int].children_count == 0,
            self.nodes@[0].children_count > 0 ==> r.0 > 0,
            led_to(*appraiser, self.nodes@, r.0 as int),
    {
        let mut node: usize = 0;
        let mut sim: BitBoard = *bb;
        let ghost nodes = self.nodes@;
        proof {
            reveal(linked);
            assert(parent_ok(nodes, 0));
        }
        while self.nodes[node].children_count > 0
            invariant
                nodes == self.nodes@,
                linked(nodes),
                fits(nodes, *bb),
                board_ok(*bb, 0),
                node < nodes.len(),
                sim == place(nodes, *bb, node as int),
                led_to(*appraiser, nodes, node as int),
                nodes[0].children_count > 0 ==> node > 0 || nodes[node as int].children_count > 0,
            decreases nodes.len() - node,
        {
            let child: usize = self.select_child(node, appraiser);
            proof {
                assert(children_ok(nodes, node as int)) by {
                    reveal(linked);
                }
                assert(parent_ok(nodes, child as int) && nodes[child as int].parent == Some(node)) by {
                    reveal(linked);
                }
                assert(expanded_ok(nodes, *bb, node as int)) by {
                    reveal(fits);
                }
                let moves = child_moves(nodes, node as int);
                let k = child - nodes[node as int].children_start;
                assert(moves[k] == nodes[child as int].bitmove);
                lemma_turn_after(sim, moves, k);
                lemma_child_ok(sim, moves[k], moves);
            }
            let _ = sim.make_move(&self.nodes[child].bitmove);
            node = child;
        }
        proof {
            lemma_place_ok(nodes, *bb, node as int);
        }
        (node, sim)
    }
}

/// The visits of the first `n` children of the root.
pub open spec fn visits_below<S>(nodes: Seq<MCTSNode<S>>, n: nat) -> int
    decreases n,
{
    if n == 0 {
        0
    } else {
        visits_below(nodes, (n - 1) as nat) + nodes[nodes[0].children_start + n - 1].visit_count
    }
}

/// A count kept in 32 bits.
pub open spec fn wrapped(x: int) -> u32 {
    (x % 0x1_0000_0000) as u32
}

/// The visits of all children of the root, in 32 bits.
pub open spec fn tally<S>(nodes: Seq<MCTSNode<S>>) -> u32 {
    wrapped(visits_below(nodes, nodes[0].children_count as nat))
}

/// A pass up from a node: visits change by `delta` on the way to the root and
/// nowhere else, and the tree keeps its shape.
#[verifier::opaque]
pub open spec fn passed<S>(a: Seq<MCTSNode<S>>, b: Seq<MCTSNode<S>>, node: int, delta: int) -> bool {
    &&& same_shape(a, b)
    &&& forall|k: int|
        0 <= k < a.len() ==> #[trigger] b[k].visit_count == if on_path(a, node, k) {
            wrapped(a[k].visit_count + delta)
        } else {
            a[k].visit_count
        }
    &&& forall|k: int| 0 <= k < a.len() && !on_path(a, node, k) ==> (#[trigger] b[k]).stats == a[k].stats
}

/// The child of the root above a node.
spec fn top_of<S>(nodes: Seq<MCTSNode<S>>, node: int) -> int
    decreases node,
{
    match nodes[node].parent {
        Some(p) => if p == 0 || p >= node {
            node
        } else {
            top_of(nodes, p as int)
        },
        None => node,
    }
}

proof fn lemma_top<S>(nodes: Seq<MCTSNode<S>>, node: int)
    requires
        linked(nodes),
        0 < node < nodes.len(),
    ensures
        is_child(nodes, 0, top_of(nodes, node)),
        forall|k: int| is_child(nodes, 0, k) ==> (#[trigger] on_path(nodes, node, k) == (k == top_of(nodes, node))),
    decreases node,
{
    reveal(linked);
    assert(parent_ok(nodes, node));
    let p = nodes[node].parent->0 as int;
    if p == 0 {
        assert(is_child(nodes, 0, node));
        assert forall|k: int| is_child(nodes, 0, k) implies (#[trigger] on_path(nodes, node, k) == (k == node)) by {
            assert(children_ok(nodes, 0));
            assert(parent_ok(nodes, 0));
            assert(on_path(nodes, 0, k) == (k == 0));
        }
    } else {
        lemma_top(nodes, p);
        assert forall|k: int| is_child(nodes, 0, k) implies (#[trigger] on_path(nodes, node, k) == (k == top_of(
            nodes,
            node,
        ))) by {
            assert(on_path(nodes, p, k) == (k == top_of(nodes, p)));
            if k == node {
                assert(nodes[k].parent == Some(0usize));
            }
        }
    }
}

proof fn lemma_wrapped_sum(a: int, x: int, d: int)
    ensures
        wrapped(a + wrapped(x + d)) == wrapped(a + x + d),
{
    let m = 0x1_0000_0000int;
    let y = (x + d) % m;
    assert((a + y) % m == (a + x + d) % m) by {
        vstd::arithmetic::div_mod::lemma_add_mod_noop_right(a, x + d, m);
        assert(a + (x + d) == a + x + d);
    }
}

/// A pass up adds to the visits of exactly one child of the root.
pub proof fn lemma_passed_tally<S>(a: Seq<MCTSNode<S>>, b: Seq<MCTSNode<S>>, node: int, delta: int)
    requires
        linked(a),
        0 < node < a.len(),
        passed(a, b, node, delta),
    ensures
        tally(b) == wrapped(tally(a) + delta),
{
    reveal(passed);
    lemma_top(a, node);
    let t = top_of(a, node) - a[0].children_start;
    assert(b[0].children_start == a[0].children_start && b[0].children_count == a[0].children_count);
    lemma_visits_bump(a, b, node, delta, a[0].children_count as nat, t);
    let va = visits_below(a, a[0].children_count as nat);
    let vb = visits_below(b, a[0].children_count as nat);
    let m = 0x1_0000_0000int;
    assert(wrapped(vb) == wrapped(va + delta));
    assert(wrapped(va % m + delta) == wrapped(va + delta)) by {
        vstd::arithmetic::div_mod::lemma_add_mod_noop_right(delta, va, m);
        assert(delta + va == va + delta && delta + va % m == va % m + delta);
    }
}

proof fn lemma_visits_bump<S>(
    a: Seq<MCTSNode<S>>,
    b: Seq<MCTSNode<S>>,
    node: int,
    delta: int,
    n: nat,
    t: int,
)
    requires
        linked(a),
        0 < node < a.len(),
        passed(a, b, node, delta),
        n <= a[0].children_count,
        t == top_of(a, node) - a[0].children_start,
        0 <= t < a[0].children_count,
    ensures
        wrapped(visits_below(b, n)) == wrapped(visits_below(a, n) + if t < n {
            delta
        } else {
            0
        }),
    decreases n,
{
    if n > 0 {
        reveal(passed);
        lemma_visits_bump(a, b, node, delta, (n - 1) as nat, t);
        lemma_top(a, node);
        let k = a[0].children_start + n - 1;
        assert(is_child(a, 0, k));
        assert(children_ok(a, 0)) by {
            reveal(linked);
        }
        assert(b[0].children_start == a[0].children_start);
        assert(on_path(a, node, k) == (n - 1 == t));
        let va = visits_below(a, (n - 1) as nat);
        let vb = visits_below(b, (n - 1) as nat);
        let x = a[k].visit_count as int;
        let y = b[k].visit_count as int;
        assert(y == if n - 1 == t { wrapped(x + delta) as int } else { x });
        let d0 = if t < n - 1 { delta } else { 0 };
        let m = 0x1_0000_0000int;
        assert(vb % m == (va + d0) % m);
        assert((vb + y) % m == (va + d0 + y) % m) by {
            vstd::arithmetic::div_mod::lemma_add_mod_noop_right(y, vb, m);
            vstd::arithmetic::div_mod::lemma_add_mod_noop_right(y, va + d0, m);
            assert(y + vb == vb + y && y + (va + d0) == va + d0 + y);
        }
        if n - 1 == t {
            lemma_wrapped_sum(va, x, delta);
        }
    }
}

/// Why a pass goes up: a visit of some worth, a visit begun, or one that is
/// begun no longer.
#[derive(Clone, Copy)]
pub enum Step<W> {
    Credit(W),
    Debit,
    Restore,
}

/// How many visits a pending visit counts for.
pub const VIRTUAL_LOSS: u32 = 3;

impl<W> Step<W> {
    /// The change of the visits.
    pub open spec fn delta(&self) -> int {
        match self {
            Step::Credit(_) => 1,
            Step::Debit => VIRTUAL_LOSS as int,
            Step::Restore => -VIRTUAL_LOSS,
        }
    }
}

proof fn lemma_path_below<S>(nodes: Seq<MCTSNode<S>>, from: int, k: int)
    requires
        linked(nodes),
        0 <= from < nodes.len(),
        on_path(nodes, from, k),
    ensures
        0 <= k <= from,
    decreases from,
{
    reveal(linked);
    assert(parent_ok(nodes, from));
    if k != from {
        lemma_path_below(nodes, nodes[from].parent->0 as int, k);
    }
}

proof fn lemma_wraps(v: u32)
    ensures
        v.wrapping_add(1) == wrapped(v + 1),
        v.wrapping_add(3) == wrapped(v + 3),
        v.wrapping_sub(3) == wrapped(v - 3),
{
}

impl<S: Copy> Tree<S> {
    /// Goes up from a node to the root and changes visits and stats on the way.
    pub fn pass_up<W: Copy, A: Appraiser<S, W>>(&mut self, node: usize, step: Step<W>, appraiser: &A)
        requires
            old(self).wf(),
            node < old(self).nodes@.len(),
        ensures
            final(self).wf(),
            passed(old(self).nodes@, final(self).nodes@, node as int, step.delta()),
            restated(*appraiser, old(self).nodes@, final(self).nodes@, node as int, step),
            forall|root: BitBoard| #[trigger] old(self).of(root) ==> final(self).of(root),
    {
        let ghost a = self.nodes@;
        let mut idx: usize = node;
        let mut done: bool = false;
        proof {
            assert forall|k: int| node < k < a.len() implies !on_path(a, node as int, k) by {
                if on_path(a, node as int, k) {
                    lemma_path_below(a, node as int, k);
                }
            }
        }
        while !done
            invariant
                linked(a),
                a == old(self).nodes@,
                node < a.len(),
                idx <= node,
                on_path(a, node as int, idx as int),
                same_shape(a, self.nodes@),
                !done ==> forall|k: int|
                    0 <= k <= idx ==> (#[trigger] on_path(a, node as int, k)) == on_path(a, idx as int, k),
                forall|k: int|
                    0 <= k < a.len() && (done || k > idx) ==> (#[trigger] self.nodes@[k]).visit_count == if on_path(
                        a,
                        node as int,
                        k,
                    ) {
                        wrapped(a[k].visit_count + step.delta())
                    } else {
                        a[k].visit_count
                    },
                forall|k: int| 0 <= k < a.len() && !done && k <= idx ==> #[trigger] self.nodes@[k] == a[k],
                forall|k: int|
                    0 <= k < a.len() && (done || k > idx) && on_path(a, node as int, k) ==> gives_step(
                        *appraiser,
                        step,
                        a[k].stats,
                        (#[trigger] self.nodes@[k]).stats,
                    ),
                forall|k: int|
                    0 <= k < a.len() && !on_path(a, node as int, k) ==> (#[trigger] self.nodes@[k]).stats == a[k].stats,
            decreases
                    if done {
                        0int
                    } else {
                        1 + idx
                    },
        {
            let mut n: MCTSNode<S> = self.nodes[idx];
            let ghost before = self.nodes@;
            let parent: Option<usize> = n.parent;
            proof {
                lemma_wraps(n.visit_count);
                assert(n == a[idx as int]);
                assert(parent_ok(a, idx as int)) by {
                    reveal(linked);
                }
            }
            match step {
                Step::Credit(w) => {
                    n.visit_count = n.visit_count.wrapping_add(1);
                    n.stats = appraiser.credit(n.stats, w);
                },
                Step::Debit => {
                    n.visit_count = n.visit_count.wrapping_add(VIRTUAL_LOSS);
                    n.stats = appraiser.debit(n.stats);
                },
                Step::Restore => {
                    n.visit_count = n.visit_count.wrapping_sub(VIRTUAL_LOSS);
                    n.stats = appraiser.restore(n.stats);
                },
            }
            self.nodes.set(idx, n);
            let ghost here = idx;
            match parent {
                Some(p) => {
                    idx = p;
                },
                None => {
                    done = true;
                },
            }
            proof {
                assert forall|k: int| 0 <= k < a.len() && (done || k > idx) implies (#[trigger] self.nodes@[k]).visit_count
                    == if on_path(a, node as int, k) {
                    wrapped(a[k].visit_count + step.delta())
                } else {
                    a[k].visit_count
                } by {
                    if k > here {
                        assert(self.nodes@[k] == before[k]);
                    } else if k < here {
                        assert(self.nodes@[k] == before[k]);
                        assert(before[k] == a[k]);
                        assert(on_path(a, node as int, k) == on_path(a, here as int, k));
                        if on_path(a, here as int, k) {
                            assert(parent is Some);
                            lemma_path_below(a, parent->0 as int, k);
                        }
                    }
                }
                assert forall|k: int|
                    0 <= k < a.len() && (done || k > idx) && on_path(a, node as int, k) implies gives_step(
                    *appraiser,
                    step,
                    a[k].stats,
                    (#[trigger] self.nodes@[k]).stats,
                ) by {
                    if k > here {
                        assert(self.nodes@[k] == before[k]);
                    } else if k < here {
                        assert(on_path(a, node as int, k) == on_path(a, here as int, k));
                        assert(parent is Some);
                        lemma_path_below(a, parent->0 as int, k);
                    }
                }
                assert forall|k: int| 0 <= k < a.len() && !done && k <= idx implies #[trigger] self.nodes@[k] == a[k] by {
                    assert(self.nodes@[k] == before[k]);
                }
                assert(same_shape(a, self.nodes@)) by {
                    assert forall|i: int| 0 <= i < a.len() implies self.nodes@[i] == (MCTSNode {
                        visit_count: self.nodes@[i].visit_count,
                        stats: self.nodes@[i].stats,
                        ..#[trigger] a[i]
                    }) by {
                        if i != here {
                            assert(self.nodes@[i] == before[i]);
                        }
                    }
                }
                assert forall|k: int| 0 <= k < a.len() && !on_path(a, node as int, k) implies (#[trigger] self.nodes@[k]).stats
                    == a[k].stats by {
                    if k != here {
                        assert(self.nodes@[k] == before[k]);
                    }
                }
                if !done {
                    assert(on_path(a, node as int, idx as int)) by {
                        assert(on_path(a, node as int, idx as int) == on_path(a, here as int, idx as int));
                        assert(on_path(a, idx as int, idx as int));
                    }
                }
            }
        }
        proof {
            assert(passed(a, self.nodes@, node as int, step.delta())) by {
                reveal(passed);
            }
            assert(restated(*appraiser, a, self.nodes@, node as int, step)) by {
                reveal(restated);
            }
            assert forall|root: BitBoard| #[trigger] old(self).of(root) implies self.of(root) by {
                lemma_same_shape(a, self.nodes@, root);
            }
            lemma_same_linked(a, self.nodes@);
        }
    }
}

/// The second tree carries the first one on: nodes keep their places and moves,
/// and children once there stay.
#[verifier::opaque]
pub open spec fn continues<S>(a: Seq<MCTSNode<S>>, b: Seq<MCTSNode<S>>) -> bool {
    &&& a.len() <= b.len()
    &&& forall|i: int|
        0 <= i < a.len() ==> {
            &&& (#[trigger] b[i]).parent == a[i].parent
            &&& b[i].bitmove == a[i].bitmove
            &&& a[i].children_count > 0 ==> b[i].children_start == a[i].children_start && b[i].children_count
                == a[i].children_count
        }
}

pub proof fn lemma_continues_refl<S>(a: Seq<MCTSNode<S>>)
    ensures
        continues(a, a),
{
    reveal(continues);
}

pub proof fn lemma_continues_trans<S>(a: Seq<MCTSNode<S>>, b: Seq<MCTSNode<S>>, c: Seq<MCTSNode<S>>)
    requires
        continues(a, b),
        continues(b, c),
    ensures
        continues(a, c),
        a.len() <= b.len() <= c.len(),
{
    reveal(continues);
    assert forall|i: int| 0 <= i < a.len() implies (#[trigger] c[i]).parent == a[i].parent && c[i].bitmove
        == a[i].bitmove && (a[i].children_count > 0 ==> c[i].children_start == a[i].children_start
        && c[i].children_count == a[i].children_count) by {
        assert(b[i].parent == a[i].parent);
    }
}

pub proof fn lemma_continues_place<S>(a: Seq<MCTSNode<S>>, b: Seq<MCTSNode<S>>, root: BitBoard, i: int)
    requires
        continues(a, b),
        0 <= i < a.len(),
    ensures
        place(a, root, i) == place(b, root, i),
        i < b.len(),
{
    reveal(continues);
    crate::tree::lemma_same_place(a, b, root, i);
}

/// The root keeps its children and their moves.
pub proof fn lemma_continues_root<S>(a: Seq<MCTSNode<S>>, b: Seq<MCTSNode<S>>)
    requires
        continues(a, b),
        linked(a),
        a.len() > 0,
        a[0].children_count > 0,
    ensures
        b.len() > 0,
        b[0].children_start == a[0].children_start,
        b[0].children_count == a[0].children_count,
        child_moves(b, 0) == child_moves(a, 0),
{
    reveal(continues);
    reveal(linked);
    assert(children_ok(a, 0));
    assert(b[0].parent == a[0].parent);
    assert forall|k: int| 0 <= k < a[0].children_count implies child_moves(b, 0)[k] == child_moves(a, 0)[k] by {
        let c = a[0].children_start + k;
        assert(b[c].parent == a[c].parent);
    }
    assert(child_moves(b, 0) =~= child_moves(a, 0));
}

/// Where visits stay, the tally stays.
pub proof fn lemma_same_tally<S>(a: Seq<MCTSNode<S>>, b: Seq<MCTSNode<S>>)
    requires
        continues(a, b),
        linked(a),
        a.len() > 0,
        a[0].children_count > 0,
        forall|i: int| 0 <= i < a.len() ==> (#[trigger] b[i]).visit_count == a[i].visit_count,
    ensures
        tally(b) == tally(a),
{
    lemma_continues_root(a, b);
    assert(a.len() <= b.len()) by {
        reveal(continues);
    }
    lemma_same_visits(a, b, a[0].children_count as nat);
}

proof fn lemma_same_visits<S>(a: Seq<MCTSNode<S>>, b: Seq<MCTSNode<S>>, n: nat)
    requires
        linked(a),
        a.len() > 0,
        a.len() <= b.len(),
        n <= a[0].children_count,
        b[0].children_start == a[0].children_start,
        forall|i: int| 0 <= i < a.len() ==> (#[trigger] b[i]).visit_count == a[i].visit_count,
    ensures
        visits_below(b, n) == visits_below(a, n),
    decreases n,
{
    if n > 0 {
        lemma_same_visits(a, b, (n - 1) as nat);
        reveal(linked);
        assert(children_ok(a, 0));
        assert(b[a[0].children_start + n - 1].visit_count == a[a[0].children_start + n - 1].visit_count);
    }
}

pub proof fn lemma_passed_continues<S>(a: Seq<MCTSNode<S>>, b: Seq<MCTSNode<S>>, node: int, delta: int)
    requires
        passed(a, b, node, delta),
    ensures
        continues(a, b),
        a.len() == b.len(),
        forall|i: int|
            0 <= i < a.len() ==> (#[trigger] b[i]).children_count == a[i].children_count && b[i].is_terminal
                == a[i].is_terminal && b[i].outcome == a[i].outcome,
{
    reveal(passed);
    reveal(continues);
    assert forall|i: int| 0 <= i < a.len() implies (#[trigger] b[i]).children_count == a[i].children_count
        && b[i].is_terminal == a[i].is_terminal && b[i].outcome == a[i].outcome && b[i].parent == a[i].parent
        && b[i].bitmove == a[i].bitmove && b[i].children_start == a[i].children_start by {
        let x = a[i];
        assert(b[i] == (MCTSNode { visit_count: b[i].visit_count, stats: b[i].stats, ..a[i] }));
    }
}

pub proof fn lemma_grown_continues<S: Copy>(
    nodes: Seq<MCTSNode<S>>,
    node: int,
    moves: Seq<BitMove>,
    stats: Seq<S>,
    white: bool,
)
    requires
        0 <= node < nodes.len(),
        nodes[node].children_count == 0,
        nodes.len() + moves.len() <= usize::MAX,
    ensures
        continues(nodes, grown(nodes, node, moves, stats, white)),
        grown(nodes, node, moves, stats, white)[node].children_count == moves.len(),
        forall|i: int|
            0 <= i < nodes.len() ==> (#[trigger] grown(nodes, node, moves, stats, white)[i]).visit_count
                == nodes[i].visit_count,
        forall|i: int|
            nodes.len() <= i < nodes.len() + moves.len() ==> (#[trigger] grown(
                nodes,
                node,
                moves,
                stats,
                white,
            )[i]).visit_count == 0,
{
    reveal(continues);
}

} // verus!
