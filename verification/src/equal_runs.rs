//! Batch searches with equal answers agree.
use vstd::prelude::*;
use crate::bitboard::BitBoard;
use crate::bitmove::BitMove;
use crate::board::Player;
use crate::equal_replies::{
    akin, law_equal_replies_settle_alike, law_equal_trees_report_alike, lemma_one_growth, lemma_one_priors, lemma_one_step,
    lemma_one_uniform, repeatable, same_leaf,
};
use crate::judged::{
    favoured, gives_logits, gives_mixed, gives_outcome, gives_turned, leads, led_to, reply_at, shows, takes_lead, Event,
};
use crate::mcts::{reports, MCTSEngine, MCTSSearchResult, NODE_LIMIT};
use crate::mcts_batch::PendingLeaf;
use crate::move_order::law_one_listing;
use crate::node::{board_ok, can_act};
use crate::policy::paints;
use crate::tree::{goes_on, linked, on_path, parent_ok, place, MCTSNode};
use crate::tree_walk::{Appraiser, Oracle, Step};

verus! {

/// The same was asked: noise, or outputs for the same planes.
pub open spec fn same_question<W>(x: Event<W>, y: Event<W>) -> bool {
    match (x, y) {
        (Event::Noise(_), Event::Noise(_)) => true,
        (Event::One(p, _), Event::One(q, _)) => p == q,
        (Event::Batch(p, _), Event::Batch(q, _)) => p == q,
        _ => false,
    }
}

/// Wherever the same was asked, the same was answered.
#[verifier::opaque]
pub open spec fn answers_alike<W>(f: Seq<Event<W>>, g: Seq<Event<W>>) -> bool {
    forall|k: int| 0 <= k < f.len() && k < g.len() && same_question(#[trigger] f[k], g[k]) ==> f[k] == g[k]
}

/// What was asked before is the beginning of what was asked after.
pub open spec fn grows<W>(a: Seq<Event<W>>, b: Seq<Event<W>>) -> bool {
    a.len() <= b.len() && forall|k: int| 0 <= k < a.len() ==> #[trigger] b[k] == a[k]
}

/// Two engines are in the same state and have been asked and answered the same.
pub open spec fn twins<S: Copy, W: Copy, A: Appraiser<S, W>, O: Oracle<W>, P: Oracle<W>>(
    x: MCTSEngine<S, W, A, O>,
    y: MCTSEngine<S, W, A, P>,
) -> bool {
    akin(x, y) && x.log@ == y.log@
}

/// The same question at the same place got the same answer.
proof fn lemma_one_answer<W>(l: Seq<Event<W>>, x: Event<W>, y: Event<W>, f: Seq<Event<W>>, g: Seq<Event<W>>)
    requires
        answers_alike(f, g),
        grows(l.push(x), f),
        grows(l.push(y), g),
        same_question(x, y),
    ensures
        x == y,
{
    reveal(answers_alike);
    let k = l.len() as int;
    assert(f[k] == l.push(x)[k]);
    assert(g[k] == l.push(y)[k]);
}

proof fn lemma_one_trail_of_leaders<S, W, A: Appraiser<S, W>>(
    a: A,
    nodes: Seq<MCTSNode<S>>,
    node: int,
    t: Seq<(int, W)>,
    u: Seq<(int, W)>,
    n: int,
)
    requires
        repeatable::<S, W, A>(a),
        leads(a, nodes, node, t),
        leads(a, nodes, node, u),
        0 <= n < t.len(),
        n < u.len(),
    ensures
        t[n] == u[n],
    decreases n,
{
    reveal(leads);
    if n == 0 {
        reveal(repeatable);
    } else {
        lemma_one_trail_of_leaders(a, nodes, node, t, u, n - 1);
        let c = nodes[node].children_start + n - 1;
        let b = t[n - 1];
        assert(takes_lead(a, nodes, node, c, t[n - 1], t[n - 1 + 1]));
        assert(takes_lead(a, nodes, node, c, u[n - 1], u[n - 1 + 1]));
        let (x, p) = choose|x: W, ahead: bool|
            #![trigger call_ensures(A::exceeds, (&a, x, b.1), ahead)]
            {
                &&& call_ensures(A::promise, (&a, &nodes[node], &nodes[c]), x)
                &&& call_ensures(A::exceeds, (&a, x, b.1), ahead)
                &&& t[n] == if ahead {
                    (c, x)
                } else {
                    b
                }
            };
        let (y, q) = choose|y: W, ahead: bool|
            #![trigger call_ensures(A::exceeds, (&a, y, b.1), ahead)]
            {
                &&& call_ensures(A::promise, (&a, &nodes[node], &nodes[c]), y)
                &&& call_ensures(A::exceeds, (&a, y, b.1), ahead)
                &&& u[n] == if ahead {
                    (c, y)
                } else {
                    b
                }
            };
        reveal(repeatable);
        assert(x == y);
        assert(p == q);
    }
}

proof fn lemma_one_favourite<S, W, A: Appraiser<S, W>>(a: A, nodes: Seq<MCTSNode<S>>, node: int, c: int, d: int)
    requires
        repeatable::<S, W, A>(a),
        favoured(a, nodes, node, c),
        favoured(a, nodes, node, d),
    ensures
        c == d,
{
    reveal(favoured);
    let t = choose|t: Seq<(int, W)>| #[trigger]
        leads(a, nodes, node, t) && t.len() == nodes[node].children_count + 1 && t.last().0 == c;
    let u = choose|u: Seq<(int, W)>| #[trigger]
        leads(a, nodes, node, u) && u.len() == nodes[node].children_count + 1 && u.last().0 == d;
    lemma_one_trail_of_leaders(a, nodes, node, t, u, t.len() - 1);
}

/// On the way down to a node, the child of a node above it is its favourite.
proof fn lemma_way_down<S, W, A: Appraiser<S, W>>(a: A, nodes: Seq<MCTSNode<S>>, j: int, p: int) -> (c: int)
    requires
        linked(nodes),
        0 <= j < nodes.len(),
        led_to(a, nodes, j),
        on_path(nodes, j, p),
        p != j,
    ensures
        p < c <= j,
        favoured(a, nodes, p, c),
    decreases j,
{
    assert(parent_ok(nodes, j)) by {
        reveal(linked);
    }
    let q = nodes[j].parent->0 as int;
    if q == p {
        j
    } else {
        lemma_way_down(a, nodes, q, p)
    }
}

proof fn lemma_root_above<S>(nodes: Seq<MCTSNode<S>>, j: int)
    requires
        linked(nodes),
        0 <= j < nodes.len(),
    ensures
        on_path(nodes, j, 0),
    decreases j,
{
    assert(parent_ok(nodes, j)) by {
        reveal(linked);
    }
    if nodes[j].parent is Some {
        lemma_root_above(nodes, nodes[j].parent->0 as int);
    }
}

/// Of two nodes that the favourites lead to, the later one lies below the other.
proof fn lemma_one_way<S, W, A: Appraiser<S, W>>(a: A, nodes: Seq<MCTSNode<S>>, i: int, j: int)
    requires
        repeatable::<S, W, A>(a),
        linked(nodes),
        0 <= j <= i < nodes.len(),
        led_to(a, nodes, i),
        led_to(a, nodes, j),
    ensures
        on_path(nodes, i, j),
    decreases i,
{
    assert(parent_ok(nodes, i)) by {
        reveal(linked);
    }
    if j == 0 {
        lemma_root_above(nodes, i);
    } else if i != j {
        let p = nodes[i].parent->0 as int;
        if p >= j {
            lemma_one_way(a, nodes, p, j);
        } else {
            lemma_one_way(a, nodes, j, p);
            let c = lemma_way_down(a, nodes, j, p);
            lemma_one_favourite(a, nodes, p, c, i);
        }
    }
}

proof fn lemma_has_child<S>(nodes: Seq<MCTSNode<S>>, i: int, j: int)
    requires
        linked(nodes),
        0 <= i < nodes.len(),
        on_path(nodes, i, j),
        i != j,
    ensures
        nodes[j].children_count > 0,
    decreases i,
{
    assert(parent_ok(nodes, i)) by {
        reveal(linked);
    }
    let p = nodes[i].parent->0 as int;
    if p != j {
        lemma_has_child(nodes, p, j);
    }
}

/// The favourites lead to one leaf only.
proof fn lemma_one_leaf<S, W, A: Appraiser<S, W>>(a: A, nodes: Seq<MCTSNode<S>>, i: int, j: int)
    requires
        repeatable::<S, W, A>(a),
        linked(nodes),
        0 <= i < nodes.len(),
        0 <= j < nodes.len(),
        led_to(a, nodes, i),
        led_to(a, nodes, j),
        nodes[i].children_count == 0,
        nodes[j].children_count == 0,
    ensures
        i == j,
{
    if i > j {
        lemma_one_way(a, nodes, i, j);
        lemma_has_child(nodes, i, j);
    } else if j > i {
        lemma_one_way(a, nodes, j, i);
        lemma_has_child(nodes, j, i);
    }
}

proof fn lemma_one_outcome<S, W, A: Appraiser<S, W>>(a: A, o: Option<Player>, v: W, w: W)
    requires
        repeatable::<S, W, A>(a),
        gives_outcome(a, o, v),
        gives_outcome(a, o, w),
    ensures
        v == w,
{
    reveal(repeatable);
}

proof fn lemma_one_list(bb: BitBoard, m: Seq<BitMove>, n: Seq<BitMove>)
    requires
        goes_on(bb, m),
        goes_on(bb, n),
    ensures
        m == n,
{
    reveal(goes_on);
    law_one_listing(m, n, bb@);
}

/// The pending leaves are the same.
pub open spec fn same_leaves(p: Seq<PendingLeaf>, q: Seq<PendingLeaf>) -> bool {
    p.len() == q.len() && forall|i: int| 0 <= i < p.len() ==> same_leaf(#[trigger] p[i], q[i])
}

proof fn lemma_same_leaves(p: Seq<PendingLeaf>, q: Seq<PendingLeaf>)
    requires
        p.len() == q.len(),
        p.len() > 0,
        same_leaves(p.drop_last(), q.drop_last()),
        same_leaf(p.last(), q.last()),
    ensures
        same_leaves(p, q),
{
    assert forall|i: int| 0 <= i < p.len() implies same_leaf(#[trigger] p[i], q[i]) by {
        if i < p.len() - 1 {
            assert(same_leaf(p.drop_last()[i], q.drop_last()[i]));
        }
    }
}

/// A leaf is gathered in one way.
#[verifier::spinoff_prover]
proof fn lemma_one_gathering<S: Copy, W: Copy, A: Appraiser<S, W>, O: Oracle<W>, P: Oracle<W>>(
    x: (MCTSEngine<S, W, A, O>, Seq<PendingLeaf>, Seq<(usize, W)>),
    x2: (MCTSEngine<S, W, A, O>, Seq<PendingLeaf>, Seq<(usize, W)>),
    y: (MCTSEngine<S, W, A, P>, Seq<PendingLeaf>, Seq<(usize, W)>),
    y2: (MCTSEngine<S, W, A, P>, Seq<PendingLeaf>, Seq<(usize, W)>),
)
    requires
        repeatable::<S, W, A>(x.0.appraiser),
        twins(x.0, y.0),
        same_leaves(x.1, y.1),
        x.2 == y.2,
        MCTSEngine::gathers_on(x, x2),
        MCTSEngine::gathers_on(y, y2),
    ensures
        twins(x2.0, y2.0),
        x2.0.log@ == x.0.log@,
        x2.0.appraiser == x.0.appraiser,
        same_leaves(x2.1, y2.1),
        x2.2 == y2.2,
{
    reveal(MCTSEngine::gathered);
    let n = choose|n: usize| #[trigger] x.0.gathered(x.1, x.2, x2.0, x2.1, x2.2, n);
    let m = choose|m: usize| #[trigger] y.0.gathered(y.1, y.2, y2.0, y2.1, y2.2, m);
    let a = x.0.appraiser;
    let nodes = x.0.tree.nodes@;
    lemma_one_leaf(a, nodes, n as int, m as int);
    let bb = place(nodes, x.0.root, n as int);
    if nodes[n as int].is_terminal {
        let v = choose|v: W|
            #![trigger x.2.push((n, v))]
            gives_outcome(a, nodes[n as int].outcome, v) && x2.2 == x.2.push((n, v));
        let w = choose|w: W|
            #![trigger y.2.push((n, w))]
            gives_outcome(a, nodes[n as int].outcome, w) && y2.2 == y.2.push((n, w));
        lemma_one_outcome(a, nodes[n as int].outcome, v, w);
    } else if bb@.winner() is Some || !can_act(bb) || !board_ok(bb, 1) {
        let v = choose|v: W|
            #![trigger x.2.push((n, v))]
            gives_outcome(a, bb@.winner(), v) && x2.2 == x.2.push((n, v));
        let w = choose|w: W|
            #![trigger y.2.push((n, w))]
            gives_outcome(a, bb@.winner(), w) && y2.2 == y.2.push((n, w));
        lemma_one_outcome(a, bb@.winner(), v, w);
    } else if x.0.network_cache@.dom().contains(bb.hash) {
        let (k, p, c) = choose|k: Seq<BitMove>, p: Seq<W>, c: MCTSEngine<S, W, A, O>|
            #![trigger x.0.recalled(x2.0, n as int, bb, k, p, c)]
            goes_on(bb, k) && k.len() > 0 && x.0.recalled(x2.0, n as int, bb, k, p, c);
        let (l, q, d) = choose|l: Seq<BitMove>, q: Seq<W>, d: MCTSEngine<S, W, A, P>|
            #![trigger y.0.recalled(y2.0, n as int, bb, l, q, d)]
            goes_on(bb, l) && l.len() > 0 && y.0.recalled(y2.0, n as int, bb, l, q, d);
        lemma_one_list(bb, k, l);
        assert(x.0.network_cache@[bb.hash].0@ == y.0.network_cache@[bb.hash].0@);
        lemma_one_priors(a, x.0.network_cache@[bb.hash].0@, k, p, q);
        lemma_one_growth(a, nodes, c.tree.nodes@, d.tree.nodes@, n as int, bb, k, p, NODE_LIMIT as int);
        lemma_one_step(
            a,
            c.tree.nodes@,
            x2.0.tree.nodes@,
            y2.0.tree.nodes@,
            n as int,
            Step::Credit(x.0.network_cache@[bb.hash].1),
        );
    } else {
        lemma_one_list(bb, x2.1.last().moves@, y2.1.last().moves@);
        lemma_same_leaves(x2.1, y2.1);
        lemma_one_step(a, nodes, x2.0.tree.nodes@, y2.0.tree.nodes@, n as int, Step::<W>::Debit);
    }
}

#[verifier::spinoff_prover]
proof fn lemma_gathered_upto<S: Copy, W: Copy, A: Appraiser<S, W>, O: Oracle<W>, P: Oracle<W>>(
    c: Seq<(MCTSEngine<S, W, A, O>, Seq<PendingLeaf>, Seq<(usize, W)>)>,
    d: Seq<(MCTSEngine<S, W, A, P>, Seq<PendingLeaf>, Seq<(usize, W)>)>,
    n: int,
)
    requires
        MCTSEngine::gathers(c),
        MCTSEngine::gathers(d),
        0 <= n < c.len(),
        n < d.len(),
        repeatable::<S, W, A>(c[0].0.appraiser),
        twins(c[0].0, d[0].0),
    ensures
        twins(c[n].0, d[n].0),
        c[n].0.log@ == c[0].0.log@,
        c[n].0.appraiser == c[0].0.appraiser,
        same_leaves(c[n].1, d[n].1),
        c[n].2 == d[n].2,
    decreases n,
{
    reveal(MCTSEngine::gathers);
    if n == 0 {
        assert(c[0].2 =~= d[0].2);
    } else {
        lemma_gathered_upto(c, d, n - 1);
        let k = n - 1;
        assert(MCTSEngine::gathers_on(c[k], c[k + 1]));
        assert(MCTSEngine::gathers_on(d[k], d[k + 1]));
        lemma_one_gathering(c[k], c[k + 1], d[k], d[k + 1]);
    }
}

proof fn lemma_one_picture<S, W, A: Appraiser<S, W>>(a: A, p: Seq<W>, q: Seq<W>, b: BitBoard)
    requires
        repeatable::<S, W, A>(a),
        shows(a, p, b),
        shows(a, q, b),
    ensures
        p == q,
{
    let (z, o) = choose|z: W, o: W|
        #![trigger paints(p, b, z, o)]
        call_ensures(A::zero, (&a,), z) && call_ensures(A::one, (&a,), o) && paints(p, b, z, o);
    let (y, n) = choose|y: W, n: W|
        #![trigger paints(q, b, y, n)]
        call_ensures(A::zero, (&a,), y) && call_ensures(A::one, (&a,), n) && paints(q, b, y, n);
    reveal(repeatable);
    assert(z == y && o == n);
    assert(p =~= q);
}

/// Settling keeps what was asked.
#[verifier::spinoff_prover]
proof fn lemma_settles_log<S: Copy, W: Copy, A: Appraiser<S, W>, O: Oracle<W>>(
    c: Seq<MCTSEngine<S, W, A, O>>,
    p: Seq<PendingLeaf>,
    reply: Option<(Seq<Seq<W>>, Seq<W>)>,
    n: int,
)
    requires
        MCTSEngine::settles(c, p, reply),
        0 <= n < c.len(),
    ensures
        c[n].log@ == c[0].log@,
        c[n].appraiser == c[0].appraiser,
    decreases n,
{
    if n > 0 {
        lemma_settles_log(c, p, reply, n - 1);
        reveal(MCTSEngine::settles);
        reveal(MCTSEngine::settled);
        let k = n - 1;
        assert(c[k].settled(c[k + 1], p[k], reply_at(reply, k)));
        let (f, w, d, v, q) = choose|
            f: MCTSEngine<S, W, A, O>,
            w: MCTSEngine<S, W, A, O>,
            d: MCTSEngine<S, W, A, O>,
            v: W,
            q: Seq<W>,
        | #[trigger] c[k].settles_by(c[k + 1], p[k], reply_at(reply, k), f, w, d, v, q);
        assert(w.log == f.log);
    }
}

/// Pending leaves are settled alike.
#[verifier::spinoff_prover]
proof fn lemma_one_settling_of_all<S: Copy, W: Copy, A: Appraiser<S, W>, O: Oracle<W>, P: Oracle<W>>(
    x: MCTSEngine<S, W, A, O>,
    x2: MCTSEngine<S, W, A, O>,
    y: MCTSEngine<S, W, A, P>,
    y2: MCTSEngine<S, W, A, P>,
    p: Seq<PendingLeaf>,
    q: Seq<PendingLeaf>,
    f: Seq<Event<W>>,
    g: Seq<Event<W>>,
)
    requires
        repeatable::<S, W, A>(x.appraiser),
        twins(x, y),
        same_leaves(p, q),
        x.settled_all(x2, p),
        y.settled_all(y2, q),
        answers_alike(f, g),
        grows(x2.log@, f),
        grows(y2.log@, g),
    ensures
        twins(x2, y2),
        x2.appraiser == x.appraiser,
{
    reveal(MCTSEngine::settled_all);
    if p.len() > 0 {
        let a = x.appraiser;
        let (k, s, c) = choose|
            k: Seq<Seq<W>>,
            s: Option<(Seq<Seq<W>>, Seq<W>)>,
            c: Seq<MCTSEngine<S, W, A, O>>,
        |
            #![trigger x.log@.push(Event::Batch(k, s)), MCTSEngine::settles(c, p, s)]
            {
                &&& x.shows_all(k, p)
                &&& c.len() == p.len() + 1
                &&& c[0] == (MCTSEngine { oracle: c[0].oracle, log: c[0].log, ..x })
                &&& c[0].log@ == x.log@.push(Event::Batch(k, s))
                &&& MCTSEngine::settles(c, p, s)
                &&& c.last() == x2
            };
        let (l, t, d) = choose|
            l: Seq<Seq<W>>,
            t: Option<(Seq<Seq<W>>, Seq<W>)>,
            d: Seq<MCTSEngine<S, W, A, P>>,
        |
            #![trigger y.log@.push(Event::Batch(l, t)), MCTSEngine::settles(d, q, t)]
            {
                &&& y.shows_all(l, q)
                &&& d.len() == q.len() + 1
                &&& d[0] == (MCTSEngine { oracle: d[0].oracle, log: d[0].log, ..y })
                &&& d[0].log@ == y.log@.push(Event::Batch(l, t))
                &&& MCTSEngine::settles(d, q, t)
                &&& d.last() == y2
            };
        assert forall|i: int| 0 <= i < k.len() implies k[i] == l[i] by {
            assert(same_leaf(p[i], q[i]));
            assert(shows(a, k[i], p[i].bb));
            assert(shows(a, l[i], p[i].bb));
            lemma_one_picture(a, k[i], l[i], p[i].bb);
        }
        assert(k =~= l);
        lemma_settles_log(c, p, s, c.len() - 1);
        lemma_settles_log(d, q, t, d.len() - 1);
        lemma_one_answer(x.log@, Event::Batch(k, s), Event::Batch(l, t), f, g);
        assert(akin(c[0], d[0]));
        assert forall|i: int| 0 <= i < c.len() - 1 implies #[trigger] same_leaf(p[i], q[i]) by {}
        law_equal_replies_settle_alike(c, d, p, q, s);
    }
}

#[verifier::spinoff_prover]
proof fn lemma_credited_upto<S: Copy, W: Copy, A: Appraiser<S, W>, O: Oracle<W>, P: Oracle<W>>(
    c: Seq<MCTSEngine<S, W, A, O>>,
    d: Seq<MCTSEngine<S, W, A, P>>,
    done: Seq<(usize, W)>,
    n: int,
)
    requires
        MCTSEngine::credits(c, done),
        MCTSEngine::credits(d, done),
        0 <= n < c.len(),
        n < d.len(),
        repeatable::<S, W, A>(c[0].appraiser),
        twins(c[0], d[0]),
    ensures
        twins(c[n], d[n]),
        c[n].log@ == c[0].log@,
        c[n].appraiser == c[0].appraiser,
    decreases n,
{
    if n > 0 {
        lemma_credited_upto(c, d, done, n - 1);
        reveal(MCTSEngine::credits);
        let k = n - 1;
        assert(c[k].stepped(c[k + 1], done[k].0 as int, Step::Credit(done[k].1)));
        assert(d[k].stepped(d[k + 1], done[k].0 as int, Step::Credit(done[k].1)));
        lemma_one_step(
            c[0].appraiser,
            c[k].tree.nodes@,
            c[k + 1].tree.nodes@,
            d[k + 1].tree.nodes@,
            done[k].0 as int,
            Step::Credit(done[k].1),
        );
    }
}

/// What was asked before a batch is the beginning of what was asked after it.
#[verifier::spinoff_prover]
proof fn lemma_batch_grows<S: Copy, W: Copy, A: Appraiser<S, W>, O: Oracle<W>>(
    x: MCTSEngine<S, W, A, O>,
    x2: MCTSEngine<S, W, A, O>,
    n: int,
)
    requires
        x.batched(x2, n),
        repeatable::<S, W, A>(x.appraiser),
        n >= 0,
    ensures
        grows(x.log@, x2.log@),
        x2.appraiser == x.appraiser,
{
    reveal(MCTSEngine::batched);
    let (c, l) = choose|c: Seq<(MCTSEngine<S, W, A, O>, Seq<PendingLeaf>, Seq<(usize, W)>)>, l: Seq<MCTSEngine<S, W, A, O>>|
        #![trigger MCTSEngine::gathers(c), MCTSEngine::credits(l, c.last().2)]
        {
            &&& MCTSEngine::gathers(c)
            &&& c.len() == n + 1
            &&& c[0].0 == x
            &&& c.last().0.settled_all(l[0], c.last().1)
            &&& MCTSEngine::credits(l, c.last().2)
            &&& l.len() == c.last().2.len() + 1
            &&& l.last() == x2
        };
    lemma_twin_of_itself(x);
    lemma_gathered_upto(c, c, n);
    let g = c.last().0;
    let p = c.last().1;
    assert(grows(g.log@, l[0].log@) && l[0].appraiser == g.appraiser) by {
        reveal(MCTSEngine::settled_all);
        if p.len() > 0 {
            let (k, s, e) = choose|
                k: Seq<Seq<W>>,
                s: Option<(Seq<Seq<W>>, Seq<W>)>,
                e: Seq<MCTSEngine<S, W, A, O>>,
            |
                #![trigger g.log@.push(Event::Batch(k, s)), MCTSEngine::settles(e, p, s)]
                {
                    &&& g.shows_all(k, p)
                    &&& e.len() == p.len() + 1
                    &&& e[0] == (MCTSEngine { oracle: e[0].oracle, log: e[0].log, ..g })
                    &&& e[0].log@ == g.log@.push(Event::Batch(k, s))
                    &&& MCTSEngine::settles(e, p, s)
                    &&& e.last() == l[0]
                };
            lemma_settles_log(e, p, s, e.len() - 1);
        }
    }
    lemma_twin_of_itself(l[0]);
    lemma_credited_upto(l, l, c.last().2, l.len() - 1);
}

proof fn lemma_twin_of_itself<S: Copy, W: Copy, A: Appraiser<S, W>, O: Oracle<W>>(x: MCTSEngine<S, W, A, O>)
    ensures
        twins(x, x),
{
}

/// A batch is run in one way.
#[verifier::spinoff_prover]
proof fn lemma_one_batch<S: Copy, W: Copy, A: Appraiser<S, W>, O: Oracle<W>, P: Oracle<W>>(
    x: MCTSEngine<S, W, A, O>,
    x2: MCTSEngine<S, W, A, O>,
    y: MCTSEngine<S, W, A, P>,
    y2: MCTSEngine<S, W, A, P>,
    n: int,
    f: Seq<Event<W>>,
    g: Seq<Event<W>>,
)
    requires
        n >= 0,
        repeatable::<S, W, A>(x.appraiser),
        twins(x, y),
        x.batched(x2, n),
        y.batched(y2, n),
        answers_alike(f, g),
        grows(x2.log@, f),
        grows(y2.log@, g),
    ensures
        twins(x2, y2),
{
    reveal(MCTSEngine::batched);
    let (c, l) = choose|c: Seq<(MCTSEngine<S, W, A, O>, Seq<PendingLeaf>, Seq<(usize, W)>)>, l: Seq<MCTSEngine<S, W, A, O>>|
        #![trigger MCTSEngine::gathers(c), MCTSEngine::credits(l, c.last().2)]
        {
            &&& MCTSEngine::gathers(c)
            &&& c.len() == n + 1
            &&& c[0].0 == x
            &&& c.last().0.settled_all(l[0], c.last().1)
            &&& MCTSEngine::credits(l, c.last().2)
            &&& l.len() == c.last().2.len() + 1
            &&& l.last() == x2
        };
    let (d, m) = choose|d: Seq<(MCTSEngine<S, W, A, P>, Seq<PendingLeaf>, Seq<(usize, W)>)>, m: Seq<MCTSEngine<S, W, A, P>>|
        #![trigger MCTSEngine::gathers(d), MCTSEngine::credits(m, d.last().2)]
        {
            &&& MCTSEngine::gathers(d)
            &&& d.len() == n + 1
            &&& d[0].0 == y
            &&& d.last().0.settled_all(m[0], d.last().1)
            &&& MCTSEngine::credits(m, d.last().2)
            &&& m.len() == d.last().2.len() + 1
            &&& m.last() == y2
        };
    lemma_gathered_upto(c, d, n);
    lemma_credits_log(l, c.last().2, l.len() - 1);
    lemma_credits_log(m, d.last().2, m.len() - 1);
    lemma_one_settling_of_all(c.last().0, l[0], d.last().0, m[0], c.last().1, d.last().1, f, g);
    lemma_credited_upto(l, m, c.last().2, l.len() - 1);
}

#[verifier::spinoff_prover]
proof fn lemma_credits_log<S: Copy, W: Copy, A: Appraiser<S, W>, O: Oracle<W>>(
    c: Seq<MCTSEngine<S, W, A, O>>,
    done: Seq<(usize, W)>,
    n: int,
)
    requires
        MCTSEngine::credits(c, done),
        0 <= n < c.len(),
    ensures
        c[n].log == c[0].log,
    decreases n,
{
    if n > 0 {
        lemma_credits_log(c, done, n - 1);
        reveal(MCTSEngine::credits);
        let k = n - 1;
        assert(c[k].stepped(c[k + 1], done[k].0 as int, Step::Credit(done[k].1)));
    }
}

/// From any batch on, what was asked only grows.
#[verifier::spinoff_prover]
proof fn lemma_batches_grow<S: Copy, W: Copy, A: Appraiser<S, W>, O: Oracle<W>>(
    c: Seq<(MCTSEngine<S, W, A, O>, int)>,
    size: int,
    k: int,
)
    requires
        MCTSEngine::batches(c, size),
        size > 0,
        0 <= k < c.len(),
        repeatable::<S, W, A>(c[k].0.appraiser),
    ensures
        grows(c[k].0.log@, c.last().0.log@),
    decreases c.len() - k,
{
    if k < c.len() - 1 {
        reveal(MCTSEngine::batches);
        let n = if size < c[k].1 {
            size
        } else {
            c[k].1
        };
        assert(c[k].0.batched(c[k + 1].0, n));
        lemma_batch_grows(c[k].0, c[k + 1].0, n);
        lemma_batches_grow(c, size, k + 1);
    }
}

#[verifier::spinoff_prover]
proof fn lemma_batches_upto<S: Copy, W: Copy, A: Appraiser<S, W>, O: Oracle<W>, P: Oracle<W>>(
    c: Seq<(MCTSEngine<S, W, A, O>, int)>,
    d: Seq<(MCTSEngine<S, W, A, P>, int)>,
    size: int,
    f: Seq<Event<W>>,
    g: Seq<Event<W>>,
    k: int,
)
    requires
        MCTSEngine::batches(c, size),
        MCTSEngine::batches(d, size),
        size > 0,
        0 <= k < c.len(),
        k < d.len(),
        repeatable::<S, W, A>(c[0].0.appraiser),
        twins(c[0].0, d[0].0),
        c[0].1 == d[0].1,
        answers_alike(f, g),
        grows(c.last().0.log@, f),
        grows(d.last().0.log@, g),
    ensures
        twins(c[k].0, d[k].0),
        c[k].1 == d[k].1,
        c[k].0.appraiser == c[0].0.appraiser,
    decreases k,
{
    if k > 0 {
        lemma_batches_upto(c, d, size, f, g, k - 1);
        let i = k - 1;
        let n = if size < c[i].1 {
            size
        } else {
            c[i].1
        };
        assert(c[i].1 > 0 && c[i].0.batched(c[i + 1].0, n) && c[i + 1].1 == c[i].1 - n) by {
            reveal(MCTSEngine::batches);
        }
        assert(d[i].1 > 0 && d[i].0.batched(d[i + 1].0, n) && d[i + 1].1 == d[i].1 - n) by {
            reveal(MCTSEngine::batches);
        }
        lemma_batch_grows(c[i].0, c[i + 1].0, n);
        lemma_batch_grows(d[i].0, d[i + 1].0, n);
        lemma_batches_grow(c, size, k);
        lemma_batches_grow(d, size, k);
        lemma_one_batch(c[i].0, c[k].0, d[i].0, d[k].0, n, f, g);
    }
}

/// All batches are run in one way.
#[verifier::spinoff_prover]
proof fn lemma_one_run<S: Copy, W: Copy, A: Appraiser<S, W>, O: Oracle<W>, P: Oracle<W>>(
    x: MCTSEngine<S, W, A, O>,
    x2: MCTSEngine<S, W, A, O>,
    y: MCTSEngine<S, W, A, P>,
    y2: MCTSEngine<S, W, A, P>,
    size: int,
    f: Seq<Event<W>>,
    g: Seq<Event<W>>,
)
    requires
        size > 0,
        repeatable::<S, W, A>(x.appraiser),
        twins(x, y),
        x.ran_batches(x2, size),
        y.ran_batches(y2, size),
        answers_alike(f, g),
        grows(x2.log@, f),
        grows(y2.log@, g),
    ensures
        twins(x2, y2),
        x2.appraiser == x.appraiser,
{
    let c = choose|c: Seq<(MCTSEngine<S, W, A, O>, int)>| #[trigger]
        MCTSEngine::batches(c, size) && c[0] == (x, x.simulations as int) && c.last() == (x2, 0int);
    let d = choose|d: Seq<(MCTSEngine<S, W, A, P>, int)>| #[trigger]
        MCTSEngine::batches(d, size) && d[0] == (y, y.simulations as int) && d.last() == (y2, 0int);
    assert(c.len() > 0 && d.len() > 0) by {
        reveal(MCTSEngine::batches);
    }
    let k = if c.len() < d.len() {
        c.len() - 1
    } else {
        d.len() - 1
    };
    lemma_batches_upto(c, d, size, f, g, k);
    assert(c.len() == d.len()) by {
        reveal(MCTSEngine::batches);
        if k < c.len() - 1 {
            assert(c[k].1 > 0);
        }
        if k < d.len() - 1 {
            assert(d[k].1 > 0);
        }
    }
}

/// Noise is mixed in in one way.
#[verifier::spinoff_prover]
proof fn lemma_one_noise<S: Copy, W: Copy, A: Appraiser<S, W>, O: Oracle<W>, P: Oracle<W>>(
    x: MCTSEngine<S, W, A, O>,
    x2: MCTSEngine<S, W, A, O>,
    y: MCTSEngine<S, W, A, P>,
    y2: MCTSEngine<S, W, A, P>,
    f: Seq<Event<W>>,
    g: Seq<Event<W>>,
)
    requires
        repeatable::<S, W, A>(x.appraiser),
        twins(x, y),
        x.noised(x2),
        y.noised(y2),
        answers_alike(f, g),
        grows(x2.log@, f),
        grows(y2.log@, g),
    ensures
        twins(x2, y2),
        x2.appraiser == x.appraiser,
{
    if x.tree.nodes@[0].children_count != 0 {
        let a = x.appraiser;
        let nodes = x.tree.nodes@;
        let p = choose|p: Seq<W>|
            #![trigger x.log@.push(Event::Noise(p))]
            x2.log@ == x.log@.push(Event::Noise(p)) && gives_mixed(a, nodes, x2.tree.nodes@, p);
        let q = choose|q: Seq<W>|
            #![trigger y.log@.push(Event::Noise(q))]
            y2.log@ == y.log@.push(Event::Noise(q)) && gives_mixed(a, nodes, y2.tree.nodes@, q);
        lemma_one_answer(x.log@, Event::Noise(p), Event::Noise(q), f, g);
        let s = x2.tree.nodes@;
        let t = y2.tree.nodes@;
        assert forall|k: int| 0 <= k < nodes.len() implies s[k] == t[k] by {
            assert(s[k] == (MCTSNode { stats: s[k].stats, ..nodes[k] }));
            assert(t[k] == (MCTSNode { stats: t[k].stats, ..nodes[k] }));
            reveal(repeatable);
        }
        assert(s =~= t);
    }
}

/// A root is opened in one way.
#[verifier::spinoff_prover]
proof fn lemma_one_opening<S: Copy, W: Copy, A: Appraiser<S, W>, O: Oracle<W>, P: Oracle<W>>(
    x: MCTSEngine<S, W, A, O>,
    x2: MCTSEngine<S, W, A, O>,
    y: MCTSEngine<S, W, A, P>,
    y2: MCTSEngine<S, W, A, P>,
    bb: BitBoard,
    f: Seq<Event<W>>,
    g: Seq<Event<W>>,
)
    requires
        repeatable::<S, W, A>(x.appraiser),
        twins(x, y),
        x.root_opened(x2, bb),
        y.root_opened(y2, bb),
        answers_alike(f, g),
        grows(x2.log@, f),
        grows(y2.log@, g),
    ensures
        twins(x2, y2),
        x2.appraiser == x.appraiser,
{
    reveal(MCTSEngine::root_opened);
    if can_act(bb) && board_ok(bb, 1) {
        let a = x.appraiser;
        let white = bb.current_player == Player::White;
        let (m, k, s, l, p, v, o) = choose|
            m: Seq<BitMove>,
            k: Seq<W>,
            s: Option<(Seq<Seq<W>>, Seq<W>)>,
            l: Seq<W>,
            p: Seq<W>,
            v: W,
            o: Seq<MCTSNode<S>>,
        | #[trigger] x.opens_by(x2, bb, m, k, s, l, p, v, o);
        let (n, j, t, h, q, w, u) = choose|
            n: Seq<BitMove>,
            j: Seq<W>,
            t: Option<(Seq<Seq<W>>, Seq<W>)>,
            h: Seq<W>,
            q: Seq<W>,
            w: W,
            u: Seq<MCTSNode<S>>,
        | #[trigger] y.opens_by(y2, bb, n, j, t, h, q, w, u);
        lemma_one_list(bb, m, n);
        lemma_one_picture(a, k, j, bb);
        lemma_one_answer(x.log@, Event::Batch(seq![k], s), Event::Batch(seq![j], t), f, g);
        assert(v == w && p == q) by {
            match reply_at(s, 0) {
                Some((raw, z)) => {
                    assert(gives_turned(a, white, z, v) && gives_turned(a, white, z, w));
                    assert(gives_logits(a, white, raw, l) && gives_logits(a, white, raw, h));
                    assert(v == w && l == h) by {
                        reveal(repeatable);
                    }
                    lemma_one_priors(a, l, m, p, q);
                },
                None => {
                    assert(v == w) by {
                        reveal(repeatable);
                    }
                    lemma_one_uniform(a, m.len(), p, q);
                },
            }
        }
        lemma_one_growth(a, x.tree.nodes@, o, u, 0, bb, m, p, NODE_LIMIT as int);
        assert(x2.tree.nodes@[0].stats == y2.tree.nodes@[0].stats) by {
            reveal(repeatable);
        }
    }
}

/// A search goes on from an expanded root in one way.
#[verifier::spinoff_prover]
proof fn lemma_one_finish<S: Copy, W: Copy, A: Appraiser<S, W>, O: Oracle<W>, P: Oracle<W>>(
    x: MCTSEngine<S, W, A, O>,
    x2: MCTSEngine<S, W, A, O>,
    y: MCTSEngine<S, W, A, P>,
    y2: MCTSEngine<S, W, A, P>,
    size: int,
    add_noise: bool,
)
    requires
        size > 0,
        repeatable::<S, W, A>(x.appraiser),
        twins(x, y),
        x.finishes_batched(x2, size, add_noise),
        y.finishes_batched(y2, size, add_noise),
        answers_alike(x2.log@, y2.log@),
    ensures
        twins(x2, y2),
        x2.appraiser == x.appraiser,
{
    if x.tree.nodes@[0].children_count != 0 {
        let only = x.tree.nodes@[0].children_count == 1;
        let r = choose|r: MCTSEngine<S, W, A, O>| #[trigger]
            x.readied(r, add_noise) && if only {
                r.settled_only(x2)
            } else {
                r.ran_batches(x2, size)
            };
        let s = choose|s: MCTSEngine<S, W, A, P>| #[trigger]
            y.readied(s, add_noise) && if only {
                s.settled_only(y2)
            } else {
                s.ran_batches(y2, size)
            };
        if !only {
            lemma_run_grows(r, x2, size);
            lemma_run_grows(s, y2, size);
        }
        if add_noise {
            lemma_one_noise(x, r, y, s, x2.log@, y2.log@);
        }
        if !only {
            lemma_one_run(r, x2, s, y2, size, x2.log@, y2.log@);
        }
    }
}

proof fn lemma_run_grows<S: Copy, W: Copy, A: Appraiser<S, W>, O: Oracle<W>>(
    x: MCTSEngine<S, W, A, O>,
    x2: MCTSEngine<S, W, A, O>,
    size: int,
)
    requires
        size > 0,
        repeatable::<S, W, A>(x.appraiser),
        x.ran_batches(x2, size),
    ensures
        grows(x.log@, x2.log@),
{
    let c = choose|c: Seq<(MCTSEngine<S, W, A, O>, int)>| #[trigger]
        MCTSEngine::batches(c, size) && c[0] == (x, x.simulations as int) && c.last() == (x2, 0int);
    assert(c.len() > 0) by {
        reveal(MCTSEngine::batches);
    }
    lemma_batches_grow(c, size, 0);
}

#[verifier::spinoff_prover]
proof fn lemma_finish_grows<S: Copy, W: Copy, A: Appraiser<S, W>, O: Oracle<W>>(
    x: MCTSEngine<S, W, A, O>,
    x2: MCTSEngine<S, W, A, O>,
    size: int,
    add_noise: bool,
)
    requires
        size > 0,
        repeatable::<S, W, A>(x.appraiser),
        x.finishes_batched(x2, size, add_noise),
    ensures
        grows(x.log@, x2.log@),
{
    if x.tree.nodes@[0].children_count != 0 {
        let only = x.tree.nodes@[0].children_count == 1;
        let r = choose|r: MCTSEngine<S, W, A, O>| #[trigger]
            x.readied(r, add_noise) && if only {
                r.settled_only(x2)
            } else {
                r.ran_batches(x2, size)
            };
        if !only {
            lemma_run_grows(r, x2, size);
        }
    }
}

/// A new root is set up in one way.
#[verifier::spinoff_prover]
proof fn lemma_one_root<S: Copy, W: Copy, A: Appraiser<S, W>, O: Oracle<W>, P: Oracle<W>>(
    x: MCTSEngine<S, W, A, O>,
    x2: MCTSEngine<S, W, A, O>,
    y: MCTSEngine<S, W, A, P>,
    y2: MCTSEngine<S, W, A, P>,
    bb: BitBoard,
)
    requires
        repeatable::<S, W, A>(x.appraiser),
        twins(x, y),
        x.rooted(x2, bb),
        y.rooted(y2, bb),
    ensures
        twins(x2, y2),
{
    let s = x2.tree.nodes@;
    let t = y2.tree.nodes@;
    assert(s[0].stats == t[0].stats) by {
        reveal(repeatable);
    }
    assert(s[0].bitmove.path@ =~= t[0].bitmove.path@);
    assert(s[0].bitmove.path =~= t[0].bitmove.path);
    assert(s[0].bitmove == t[0].bitmove);
    assert(s =~= t);
}

/// Two batch searches of a position agree: engines in the same state, with
/// whatever networks, that are answered alike wherever they ask the same, report
/// the same best move, visits, policy and worth, and end in the same state. The
/// appraiser is to answer the same question alike every time.
#[verifier::spinoff_prover]
pub proof fn law_equal_answers_search_alike<S: Copy, W: Copy, A: Appraiser<S, W>, O: Oracle<W>, P: Oracle<W>>(
    x: MCTSEngine<S, W, A, O>,
    x2: MCTSEngine<S, W, A, O>,
    r: MCTSSearchResult<W>,
    y: MCTSEngine<S, W, A, P>,
    y2: MCTSEngine<S, W, A, P>,
    s: MCTSSearchResult<W>,
    bb: BitBoard,
    size: int,
    add_noise: bool,
)
    requires
        size > 0,
        repeatable::<S, W, A>(x.appraiser),
        akin(x, y),
        x.log@ == y.log@,
        x.searches_batched(x2, bb, size, add_noise),
        y.searches_batched(y2, bb, size, add_noise),
        answers_alike(x2.log@, y2.log@),
        reports(x2.appraiser, x2.tree.nodes@, r),
        reports(y2.appraiser, y2.tree.nodes@, s),
    ensures
        akin(x2, y2),
        x2.log@ == y2.log@,
        r.visits == s.visits,
        r.policy_target@ == s.policy_target@,
        r.root_value == s.root_value,
        r.best_move is Some == s.best_move is Some,
        r.best_move is Some ==> r.best_move->0@ == s.best_move->0@,
{
    reveal(MCTSEngine::searches_batched);
    assert(x.reuses(bb) == y.reuses(bb));
    if x.reuses(bb) {
        lemma_one_finish(x, x2, y, y2, size, add_noise);
    } else {
        let (xf, xo) = choose|xf: MCTSEngine<S, W, A, O>, xo: MCTSEngine<S, W, A, O>|
            #![trigger xf.root_opened(xo, bb)]
            x.rooted(xf, bb) && xf.root_opened(xo, bb) && xo.finishes_batched(x2, size, add_noise);
        let (yf, yo) = choose|yf: MCTSEngine<S, W, A, P>, yo: MCTSEngine<S, W, A, P>|
            #![trigger yf.root_opened(yo, bb)]
            y.rooted(yf, bb) && yf.root_opened(yo, bb) && yo.finishes_batched(y2, size, add_noise);
        lemma_one_root(x, xf, y, yf, bb);
        assert(xo.appraiser == x.appraiser && yo.appraiser == y.appraiser) by {
            reveal(MCTSEngine::root_opened);
        }
        lemma_finish_grows(xo, x2, size, add_noise);
        lemma_finish_grows(yo, y2, size, add_noise);
        lemma_one_opening(xf, xo, yf, yo, bb, x2.log@, y2.log@);
        lemma_one_finish(xo, x2, yo, y2, size, add_noise);
    }
    law_equal_trees_report_alike(x2.appraiser, x2.tree.nodes@, r, s);
}

} // verus!
