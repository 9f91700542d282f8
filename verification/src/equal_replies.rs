//! What a search makes of a network's replies depends on the replies alone, as
//! far as the appraiser's answers do.
use vstd::prelude::*;
use crate::bitboard::BitBoard;
use crate::bitmove::BitMove;
use crate::judged::{
    adds_share, gives_children, gives_fresh, gives_logits, gives_priors, gives_score, gives_shares, gives_step,
    gives_turned, gives_uniform, is_blank, reply_at, restated, sums_shares,
};
use crate::leaf_cache::remembers;
use crate::mcts::{is_favourite, reports, MCTSEngine, MCTSSearchResult, NODE_LIMIT};
use crate::mcts_batch::PendingLeaf;
use crate::policy::policy_of;
use crate::tree::{grown, is_child, on_path, same_shape, MCTSNode};
use crate::tree_walk::{passed, Appraiser, Oracle, Step};

verus! {

/// The appraiser answers the same question alike every time.
#[verifier::opaque]
pub open spec fn repeatable<S, W, A: Appraiser<S, W>>(a: A) -> bool {
    &&& forall|x: W, y: W| #[trigger] call_ensures(A::zero, (&a,), x) && #[trigger] call_ensures(A::zero, (&a,), y) ==> x == y
    &&& forall|w: W, x: W, y: W| #[trigger]
        call_ensures(A::negated, (&a, w), x) && #[trigger] call_ensures(A::negated, (&a, w), y) ==> x == y
    &&& forall|n: i32, x: W, y: W| #[trigger]
        call_ensures(A::of_score, (&a, n), x) && #[trigger] call_ensures(A::of_score, (&a, n), y) ==> x == y
    &&& forall|n: usize, x: W, y: W| #[trigger]
        call_ensures(A::uniform, (&a, n), x) && #[trigger] call_ensures(A::uniform, (&a, n), y) ==> x == y
    &&& forall|w: W, x: S, y: S| #[trigger]
        call_ensures(A::fresh, (&a, w), x) && #[trigger] call_ensures(A::fresh, (&a, w), y) ==> x == y
    &&& forall|s: S, w: W, x: S, y: S| #[trigger]
        call_ensures(A::credit, (&a, s, w), x) && #[trigger] call_ensures(A::credit, (&a, s, w), y) ==> x == y
    &&& forall|s: S, x: S, y: S| #[trigger]
        call_ensures(A::debit, (&a, s), x) && #[trigger] call_ensures(A::debit, (&a, s), y) ==> x == y
    &&& forall|s: S, x: S, y: S| #[trigger]
        call_ensures(A::restore, (&a, s), x) && #[trigger] call_ensures(A::restore, (&a, s), y) ==> x == y
    &&& forall|s: S, n: u32, x: W, y: W| #[trigger]
        call_ensures(A::mean, (&a, s, n), x) && #[trigger] call_ensures(A::mean, (&a, s, n), y) ==> x == y
    &&& forall|w: W, n: u32, t: u32, x: W, y: W| #[trigger]
        call_ensures(A::add_share, (&a, w, n, t), x) && #[trigger] call_ensures(A::add_share, (&a, w, n, t), y) ==> x == y
    &&& forall|x: W, y: W| #[trigger] call_ensures(A::one, (&a,), x) && #[trigger] call_ensures(A::one, (&a,), y) ==> x == y
    &&& forall|x: W, y: W| #[trigger]
        call_ensures(A::lowest, (&a,), x) && #[trigger] call_ensures(A::lowest, (&a,), y) ==> x == y
    &&& forall|v: W, w: W, x: bool, y: bool| #[trigger]
        call_ensures(A::exceeds, (&a, v, w), x) && #[trigger] call_ensures(A::exceeds, (&a, v, w), y) ==> x == y
    &&& forall|s: S, w: W, x: S, y: S| #[trigger]
        call_ensures(A::mix, (&a, s, w), x) && #[trigger] call_ensures(A::mix, (&a, s, w), y) ==> x == y
    &&& forall|n: MCTSNode<S>, c: MCTSNode<S>, x: W, y: W| #[trigger]
        call_ensures(A::promise, (&a, &n, &c), x) && #[trigger] call_ensures(A::promise, (&a, &n, &c), y) ==> x == y
    &&& forall|k: Vec<W>, l: Vec<W>, m: Vec<BitMove>, n: Vec<BitMove>, x: Vec<W>, y: Vec<W>| #[trigger]
        call_ensures(A::priors, (&a, &k, &m), x) && #[trigger] call_ensures(A::priors, (&a, &l, &n), y) && k@ == l@ && m@
            == n@ ==> x@ == y@
}

/// A step up from a node has one result.
pub(crate) proof fn lemma_one_step<S, W, A: Appraiser<S, W>>(
    a: A,
    before: Seq<MCTSNode<S>>,
    x: Seq<MCTSNode<S>>,
    y: Seq<MCTSNode<S>>,
    node: int,
    step: Step<W>,
)
    requires
        repeatable::<S, W, A>(a),
        passed(before, x, node, step.delta()),
        passed(before, y, node, step.delta()),
        restated(a, before, x, node, step),
        restated(a, before, y, node, step),
    ensures
        x == y,
{
    reveal(passed);
    reveal(restated);
    assert forall|k: int| 0 <= k < before.len() implies x[k] == y[k] by {
        let b = before[k];
        assert(x[k].visit_count == y[k].visit_count);
        if on_path(before, node, k) {
            assert(gives_step(a, step, before[k].stats, x[k].stats));
            assert(gives_step(a, step, before[k].stats, y[k].stats));
            reveal(repeatable);
        } else {
            assert(x[k].stats == before[k].stats && y[k].stats == before[k].stats);
        }
        assert(x[k] == (MCTSNode { visit_count: x[k].visit_count, stats: x[k].stats, ..b }));
        assert(y[k] == (MCTSNode { visit_count: y[k].visit_count, stats: y[k].stats, ..b }));
    }
    assert(x =~= y);
}

/// A leaf is expanded in one way.
pub(crate) proof fn lemma_one_growth<S: Copy, W, A: Appraiser<S, W>>(
    a: A,
    before: Seq<MCTSNode<S>>,
    x: Seq<MCTSNode<S>>,
    y: Seq<MCTSNode<S>>,
    node: int,
    bb: BitBoard,
    moves: Seq<BitMove>,
    priors: Seq<W>,
    limit: int,
)
    requires
        repeatable::<S, W, A>(a),
        gives_children(a, before, x, node, bb, moves, priors, limit),
        gives_children(a, before, y, node, bb, moves, priors, limit),
    ensures
        x == y,
{
    if before.len() + moves.len() <= limit {
        let n = moves.len();
        let s = choose|s: Seq<S>|
            #![trigger gives_fresh(a, n, priors, s)]
            gives_fresh(a, n, priors, s) && x == grown(
                before,
                node,
                moves,
                s,
                bb.current_player == crate::board::Player::White,
            );
        let t = choose|t: Seq<S>|
            #![trigger gives_fresh(a, n, priors, t)]
            gives_fresh(a, n, priors, t) && y == grown(
                before,
                node,
                moves,
                t,
                bb.current_player == crate::board::Player::White,
            );
        lemma_one_fresh(a, n, priors, s, t);
    }
}

proof fn lemma_one_fresh<S, W, A: Appraiser<S, W>>(a: A, n: nat, priors: Seq<W>, s: Seq<S>, t: Seq<S>)
    requires
        repeatable::<S, W, A>(a),
        gives_fresh(a, n, priors, s),
        gives_fresh(a, n, priors, t),
    ensures
        s == t,
{
    reveal(repeatable);
    let u = choose|u: W| #[trigger]
        call_ensures(A::uniform, (&a, n as usize), u) && forall|i: int|
            0 <= i < n ==> call_ensures(
                A::fresh,
                (
                    &a,
                    if i < priors.len() {
                        priors[i]
                    } else {
                        u
                    },
                ),
                #[trigger] s[i],
            );
    let v = choose|v: W| #[trigger]
        call_ensures(A::uniform, (&a, n as usize), v) && forall|i: int|
            0 <= i < n ==> call_ensures(
                A::fresh,
                (
                    &a,
                    if i < priors.len() {
                        priors[i]
                    } else {
                        v
                    },
                ),
                #[trigger] t[i],
            );
    assert(u == v);
    assert forall|i: int| 0 <= i < n implies s[i] == t[i] by {
        let w = if i < priors.len() { priors[i] } else { u };
        assert(call_ensures(A::fresh, (&a, w), s[i]));
        assert(call_ensures(A::fresh, (&a, w), t[i]));
    }
    assert(s =~= t);
}

/// Two caches hold the same outputs and worths.
pub open spec fn same_cache<W>(m: Map<u64, (Vec<W>, W)>, n: Map<u64, (Vec<W>, W)>) -> bool {
    &&& m.dom() == n.dom()
    &&& forall|h: u64| #[trigger] m.dom().contains(h) ==> m[h].0@ == n[h].0@ && m[h].1 == n[h].1
}

/// Two engines are in the same state, whatever their networks.
pub open spec fn akin<S: Copy, W: Copy, A: Appraiser<S, W>, O: Oracle<W>, P: Oracle<W>>(
    x: MCTSEngine<S, W, A, O>,
    y: MCTSEngine<S, W, A, P>,
) -> bool {
    &&& x.tree.nodes@ == y.tree.nodes@
    &&& x.root == y.root
    &&& x.appraiser == y.appraiser
    &&& x.engine.weights == y.engine.weights
    &&& x.simulations == y.simulations
    &&& x.rng == y.rng
    &&& x.heuristic_cache@ == y.heuristic_cache@
    &&& same_cache(x.network_cache@, y.network_cache@)
}

/// The leaves stand for the same node, position and moves.
pub open spec fn same_leaf(k: PendingLeaf, l: PendingLeaf) -> bool {
    k.node == l.node && k.bb == l.bb && k.moves@ == l.moves@
}

/// A reply is made use of in one way.
proof fn lemma_one_reply<S: Copy, W: Copy, A: Appraiser<S, W>, O: Oracle<W>, P: Oracle<W>>(
    x: MCTSEngine<S, W, A, O>,
    x2: MCTSEngine<S, W, A, O>,
    y: MCTSEngine<S, W, A, P>,
    y2: MCTSEngine<S, W, A, P>,
    bb: BitBoard,
    moves: Seq<BitMove>,
    reply: Option<(Seq<W>, W)>,
    v: W,
    w: W,
    p: Seq<W>,
    q: Seq<W>,
)
    requires
        repeatable::<S, W, A>(x.appraiser),
        akin(x, y),
        x.replied(x2, bb, moves, reply, v, p),
        y.replied(y2, bb, moves, reply, w, q),
    ensures
        akin(x2, y2),
        v == w,
        p == q,
{
    let a = x.appraiser;
    let white = bb.current_player == crate::board::Player::White;
    match reply {
        Some((raw, u)) => {
            let k = choose|k: Seq<W>|
                #![trigger gives_priors(a, k, moves, p)]
                {
                    &&& gives_turned(a, white, u, v)
                    &&& gives_logits(a, white, raw, k)
                    &&& gives_priors(a, k, moves, p)
                    &&& x.learned(x2, bb.hash, k, v)
                };
            let l = choose|l: Seq<W>|
                #![trigger gives_priors(a, l, moves, q)]
                {
                    &&& gives_turned(a, white, u, w)
                    &&& gives_logits(a, white, raw, l)
                    &&& gives_priors(a, l, moves, q)
                    &&& y.learned(y2, bb.hash, l, w)
                };
            assert(k == l && v == w) by {
                reveal(repeatable);
            }
            lemma_one_priors(a, k, moves, p, q);
            let e = choose|e: Vec<W>|
                #![trigger remembers(x.network_cache@, bb.hash, (e, v))]
                e@ == k && x2.network_cache@ == remembers(x.network_cache@, bb.hash, (e, v));
            let f = choose|f: Vec<W>|
                #![trigger remembers(y.network_cache@, bb.hash, (f, w))]
                f@ == l && y2.network_cache@ == remembers(y.network_cache@, bb.hash, (f, w));
            lemma_same_remembers(x.network_cache@, y.network_cache@, bb.hash, e, f, v);
        },
        None => {
            assert(v == w && p == q) by {
                reveal(repeatable);
                lemma_one_uniform(a, moves.len(), p, q);
            }
        },
    }
}

pub(crate) proof fn lemma_one_priors<S, W, A: Appraiser<S, W>>(a: A, l: Seq<W>, m: Seq<BitMove>, p: Seq<W>, q: Seq<W>)
    requires
        repeatable::<S, W, A>(a),
        gives_priors(a, l, m, p),
        gives_priors(a, l, m, q),
    ensures
        p == q,
{
    reveal(repeatable);
    let (l1, m1, p1) = choose|l1: Vec<W>, m1: Vec<BitMove>, p1: Vec<W>|
        l1@ == l && m1@ == m && p1@ == p && #[trigger] call_ensures(A::priors, (&a, &l1, &m1), p1);
    let (l2, m2, p2) = choose|l2: Vec<W>, m2: Vec<BitMove>, p2: Vec<W>|
        l2@ == l && m2@ == m && p2@ == q && #[trigger] call_ensures(A::priors, (&a, &l2, &m2), p2);
    assert(p1@ == p2@);
}

pub(crate) proof fn lemma_one_uniform<S, W, A: Appraiser<S, W>>(a: A, n: nat, p: Seq<W>, q: Seq<W>)
    requires
        repeatable::<S, W, A>(a),
        gives_uniform(a, n, p),
        gives_uniform(a, n, q),
    ensures
        p == q,
{
    reveal(repeatable);
    let u = choose|u: W| #[trigger]
        call_ensures(A::uniform, (&a, n as usize), u) && p == Seq::new(n, |i: int| u);
    let v = choose|v: W| #[trigger]
        call_ensures(A::uniform, (&a, n as usize), v) && q == Seq::new(n, |i: int| v);
    assert(u == v);
    assert(p =~= q);
}

proof fn lemma_same_remembers<W>(m: Map<u64, (Vec<W>, W)>, n: Map<u64, (Vec<W>, W)>, h: u64, e: Vec<W>, f: Vec<W>, v: W)
    requires
        same_cache(m, n),
        e@ == f@,
    ensures
        same_cache(remembers(m, h, (e, v)), remembers(n, h, (f, v))),
{
    assert(m.len() == n.len());
    let x = remembers(m, h, (e, v));
    let y = remembers(n, h, (f, v));
    assert(x.dom() =~= y.dom());
    assert forall|k: u64| #[trigger] x.dom().contains(k) implies x[k].0@ == y[k].0@ && x[k].1 == y[k].1 by {
        if k != h {
            assert(m.dom().contains(k));
        }
    }
}

/// A pending leaf is settled in one way.
proof fn lemma_one_settling<S: Copy, W: Copy, A: Appraiser<S, W>, O: Oracle<W>, P: Oracle<W>>(
    x: MCTSEngine<S, W, A, O>,
    x2: MCTSEngine<S, W, A, O>,
    y: MCTSEngine<S, W, A, P>,
    y2: MCTSEngine<S, W, A, P>,
    k: PendingLeaf,
    l: PendingLeaf,
    reply: Option<(Seq<W>, W)>,
)
    requires
        repeatable::<S, W, A>(x.appraiser),
        akin(x, y),
        same_leaf(k, l),
        x.settled(x2, k, reply),
        y.settled(y2, l, reply),
    ensures
        akin(x2, y2),
        x2.appraiser == x.appraiser,
{
    reveal(MCTSEngine::settled);
    let a = x.appraiser;
    let node = k.node as int;
    let (xf, xw, xd, v, p) = choose|
        xf: MCTSEngine<S, W, A, O>,
        xw: MCTSEngine<S, W, A, O>,
        xd: MCTSEngine<S, W, A, O>,
        v: W,
        p: Seq<W>,
    | #[trigger] x.settles_by(x2, k, reply, xf, xw, xd, v, p);
    let (yf, yw, yd, w, q) = choose|
        yf: MCTSEngine<S, W, A, P>,
        yw: MCTSEngine<S, W, A, P>,
        yd: MCTSEngine<S, W, A, P>,
        w: W,
        q: Seq<W>,
    | #[trigger] y.settles_by(y2, l, reply, yf, yw, yd, w, q);
    lemma_one_step(a, x.tree.nodes@, xf.tree.nodes@, yf.tree.nodes@, node, Step::<W>::Restore);
    assert(akin(xf, yf));
    lemma_one_reply(xf, xw, yf, yw, k.bb, k.moves@, reply, v, w, p, q);
    assert(xw.appraiser == a);
    let n = xw.tree.nodes@[node];
    if n.children_count == 0 && !n.is_terminal {
        lemma_one_growth(
            a,
            xw.tree.nodes@,
            xd.tree.nodes@,
            yd.tree.nodes@,
            node,
            k.bb,
            k.moves@,
            p,
            NODE_LIMIT as int,
        );
    }
    assert(akin(xd, yd));
    lemma_one_step(a, xd.tree.nodes@, x2.tree.nodes@, y2.tree.nodes@, node, Step::Credit(v));
}

proof fn lemma_settled_upto<S: Copy, W: Copy, A: Appraiser<S, W>, O: Oracle<W>, P: Oracle<W>>(
    c: Seq<MCTSEngine<S, W, A, O>>,
    d: Seq<MCTSEngine<S, W, A, P>>,
    p: Seq<PendingLeaf>,
    q: Seq<PendingLeaf>,
    reply: Option<(Seq<Seq<W>>, Seq<W>)>,
    n: int,
)
    requires
        repeatable::<S, W, A>(c[0].appraiser),
        MCTSEngine::settles(c, p, reply),
        MCTSEngine::settles(d, q, reply),
        c.len() == d.len(),
        0 <= n < c.len(),
        akin(c[0], d[0]),
        forall|i: int| 0 <= i < c.len() - 1 ==> #[trigger] same_leaf(p[i], q[i]),
    ensures
        akin(c[n], d[n]),
        c[n].appraiser == c[0].appraiser,
    decreases n,
{
    if n > 0 {
        lemma_settled_upto(c, d, p, q, reply, n - 1);
        reveal(MCTSEngine::settles);
        let k = n - 1;
        assert(c[k].settled(c[k + 1], p[k], reply_at(reply, k)));
        assert(d[k].settled(d[k + 1], q[k], reply_at(reply, k)));
        assert(same_leaf(p[k], q[k]));
        lemma_one_settling(c[k], c[k + 1], d[k], d[k + 1], p[k], q[k], reply_at(reply, k));
    }
}

/// Equal replies settle equal leaves alike: two engines in the same state, with
/// whatever networks, that settle the same pending leaves with the same reply
/// are in the same state again.
pub proof fn law_equal_replies_settle_alike<S: Copy, W: Copy, A: Appraiser<S, W>, O: Oracle<W>, P: Oracle<W>>(
    c: Seq<MCTSEngine<S, W, A, O>>,
    d: Seq<MCTSEngine<S, W, A, P>>,
    p: Seq<PendingLeaf>,
    q: Seq<PendingLeaf>,
    reply: Option<(Seq<Seq<W>>, Seq<W>)>,
)
    requires
        repeatable::<S, W, A>(c[0].appraiser),
        MCTSEngine::settles(c, p, reply),
        MCTSEngine::settles(d, q, reply),
        c.len() == d.len(),
        akin(c[0], d[0]),
        forall|i: int| 0 <= i < c.len() - 1 ==> #[trigger] same_leaf(p[i], q[i]),
    ensures
        akin(c.last(), d.last()),
{
    assert(c.len() > 0) by {
        reveal(MCTSEngine::settles);
    }
    lemma_settled_upto(c, d, p, q, reply, c.len() - 1);
}

proof fn lemma_one_trail<S, W, A: Appraiser<S, W>>(
    a: A,
    nodes: Seq<MCTSNode<S>>,
    total: u32,
    t: Seq<Seq<W>>,
    u: Seq<Seq<W>>,
    n: int,
)
    requires
        repeatable::<S, W, A>(a),
        sums_shares(a, nodes, total, t),
        sums_shares(a, nodes, total, u),
        0 <= n < t.len(),
        n < u.len(),
    ensures
        t[n] == u[n],
    decreases n,
{
    reveal(sums_shares);
    if n == 0 {
        lemma_one_blank(a, t[0], u[0]);
    } else {
        lemma_one_trail(a, nodes, total, t, u, n - 1);
        let k = n - 1;
        let child = nodes[nodes[0].children_start + k];
        assert(adds_share(a, child, total, t[k], t[k + 1]));
        assert(adds_share(a, child, total, u[k], u[k + 1]));
        let i = policy_of(child.bitmove@);
        let x = choose|x: W| #[trigger]
            call_ensures(A::add_share, (&a, t[k][i], child.visit_count, total), x) && t[k + 1] == t[k].update(i, x);
        let y = choose|y: W| #[trigger]
            call_ensures(A::add_share, (&a, u[k][i], child.visit_count, total), y) && u[k + 1] == u[k].update(i, y);
        reveal(repeatable);
        assert(x == y);
    }
}

proof fn lemma_one_blank<S, W, A: Appraiser<S, W>>(a: A, p: Seq<W>, q: Seq<W>)
    requires
        repeatable::<S, W, A>(a),
        is_blank(a, p),
        is_blank(a, q),
    ensures
        p == q,
{
    reveal(repeatable);
    let x = choose|x: W| #[trigger] call_ensures(A::zero, (&a,), x) && p == Seq::new(1332, |i: int| x);
    let y = choose|y: W| #[trigger] call_ensures(A::zero, (&a,), y) && q == Seq::new(1332, |i: int| y);
    assert(x == y);
    assert(p =~= q);
}

/// Equal trees give equal results: the same visits, the same shares of them, the
/// same worth of the root, and the same best move.
pub proof fn law_equal_trees_report_alike<S, W, A: Appraiser<S, W>>(
    a: A,
    nodes: Seq<MCTSNode<S>>,
    x: MCTSSearchResult<W>,
    y: MCTSSearchResult<W>,
)
    requires
        repeatable::<S, W, A>(a),
        reports(a, nodes, x),
        reports(a, nodes, y),
    ensures
        x.visits == y.visits,
        x.policy_target@ == y.policy_target@,
        x.root_value == y.root_value,
        x.best_move is Some == y.best_move is Some,
        x.best_move is Some ==> x.best_move->0@ == y.best_move->0@,
{
    assert(x.root_value == y.root_value) by {
        reveal(repeatable);
    }
    assert(x.visits == y.visits);
    reveal(gives_shares);
    if x.visits == 0 {
        lemma_one_blank(a, x.policy_target@, y.policy_target@);
    } else {
        let t = choose|t: Seq<Seq<W>>| #[trigger]
            sums_shares(a, nodes, x.visits, t) && t.len() == nodes[0].children_count + 1 && t.last() == x.policy_target@;
        let u = choose|u: Seq<Seq<W>>| #[trigger]
            sums_shares(a, nodes, y.visits, u) && u.len() == nodes[0].children_count + 1 && u.last() == y.policy_target@;
        lemma_one_trail(a, nodes, x.visits, t, u, t.len() - 1);
    }
    if nodes[0].children_count > 0 {
        let c = choose|c: int|
            #![trigger is_favourite(nodes, c)]
            is_favourite(nodes, c) && x.best_move->0@ == nodes[c].bitmove@;
        let d = choose|d: int|
            #![trigger is_favourite(nodes, d)]
            is_favourite(nodes, d) && y.best_move->0@ == nodes[d].bitmove@;
        assert(c == d) by {
            assert(is_child(nodes, 0, c) && is_child(nodes, 0, d));
        }
    }
}

} // verus!
