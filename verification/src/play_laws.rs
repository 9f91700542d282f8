//! What finished games, replies and visits mean to a tree search, and what
//! examples and matches say of games.
use vstd::prelude::*;
use crate::bitboard::BitBoard;
use crate::bitmove::BitMove;
use crate::board::{Cell, Player};
use crate::equal_replies::repeatable;
use crate::eval_laws::over;
use crate::judged::{favoured, gives_outcome, gives_shares, leads, sums_shares, takes_lead};
use crate::mcts::{reports, MCTSEngine, MCTSSearchResult};
use crate::mcts_batch::PendingLeaf;
use crate::node::{board_ok, can_act};
use crate::policy::{bb_to_planes, policy_index};
use crate::rules::Action;
use crate::selfplay::{
    are_examples, counts_of, is_match_game, is_play, stood, tally_of, EvalMatchResult, Game, MatchGame, SelfPlayResult,
};
use crate::tree::{goes_on, on_path, place, MCTSNode};
use crate::tree_walk::{passed, Appraiser, Oracle, Step};
use crate::turns::{MatchRules, MatchTurn};

verus! {

/// Negating a worth twice gives it back.
#[verifier::opaque]
pub open spec fn turns_back<S, W, A: Appraiser<S, W>>(a: A) -> bool {
    forall|v: W, n: W, m: W|
        call_ensures(A::negated, (&a, v), n) && #[trigger] call_ensures(A::negated, (&a, v), n) && #[trigger] call_ensures(
            A::negated,
            (&a, n),
            m,
        ) ==> m == v
}

/// A leaf whose game is over is worth one if white has four barrels home. If
/// black has, it is worth the negation of what white's win is worth, and so
/// something else wherever negating one changes it. A game that cannot go on
/// without a winner is worth zero.
pub proof fn law_wins_have_opposite_worths<S: Copy, W: Copy, A: Appraiser<S, W>, O: Oracle<W>, P: Oracle<W>>(
    x: MCTSEngine<S, W, A, O>,
    x2: MCTSEngine<S, W, A, O>,
    i: int,
    won: BitBoard,
    v: W,
    y: MCTSEngine<S, W, A, P>,
    y2: MCTSEngine<S, W, A, P>,
    j: int,
    lost: BitBoard,
    w: W,
    network: bool,
)
    requires
        x.appraiser == y.appraiser,
        repeatable::<S, W, A>(x.appraiser),
        won.white_scored == 4,
        lost.black_scored == 4,
        lost.white_scored < 4,
        x.assessed(x2, i, won, network, v),
        y.assessed(y2, j, lost, network, w),
    ensures
        call_ensures(A::one, (&x.appraiser,), v),
        call_ensures(A::negated, (&x.appraiser, v), w),
        !call_ensures(A::negated, (&x.appraiser, v), v) ==> v != w,
{
    assert(won@.white_scored == 4);
    assert(lost@.black_scored == 4 && lost@.white_scored < 4);
    reveal(repeatable);
}

/// A game without a winner that cannot go on is worth zero.
pub proof fn law_dead_ends_are_worth_nothing<S: Copy, W: Copy, A: Appraiser<S, W>, O: Oracle<W>>(
    x: MCTSEngine<S, W, A, O>,
    x2: MCTSEngine<S, W, A, O>,
    i: int,
    bb: BitBoard,
    network: bool,
    v: W,
)
    requires
        bb.white_scored < 4,
        bb.black_scored < 4,
        !can_act(bb),
        x.assessed(x2, i, bb, network, v),
    ensures
        call_ensures(A::zero, (&x.appraiser,), v),
{
    assert(bb@.white_scored < 4 && bb@.black_scored < 4);
}

/// A visit to a game that is over is credited to the leaf, to every node above
/// it and to the root: one if white has won it, the negation of one if black has.
/// All of them count one visit more, and no other node does.
pub proof fn law_finished_games_are_backed_up<S: Copy, W: Copy, A: Appraiser<S, W>, O: Oracle<W>>(
    x: MCTSEngine<S, W, A, O>,
    x2: MCTSEngine<S, W, A, O>,
    network: bool,
    node: int,
    mid: MCTSEngine<S, W, A, O>,
    value: W,
    k: int,
)
    requires
        x.visits(x2, network, node, mid, value),
        !x.tree.nodes@[node].is_terminal,
        place(x.tree.nodes@, x.root, node).white_scored == 4 || place(x.tree.nodes@, x.root, node).black_scored == 4,
        0 <= k < x.tree.nodes@.len(),
        x.tree.nodes@[k].visit_count < u32::MAX,
    ensures
        place(x.tree.nodes@, x.root, node).white_scored == 4 ==> call_ensures(A::one, (&x.appraiser,), value),
        place(x.tree.nodes@, x.root, node).white_scored < 4 ==> exists|one: W|
            call_ensures(A::one, (&x.appraiser,), one) && #[trigger] call_ensures(
                A::negated,
                (&x.appraiser, one),
                value,
            ),
        on_path(x.tree.nodes@, node, k) ==> {
            &&& call_ensures(A::credit, (&x.appraiser, x.tree.nodes@[k].stats, value), x2.tree.nodes@[k].stats)
            &&& x2.tree.nodes@[k].visit_count == x.tree.nodes@[k].visit_count + 1
        },
        !on_path(x.tree.nodes@, node, k) ==> x2.tree.nodes@[k].visit_count == x.tree.nodes@[k].visit_count,
{
    let bb = place(x.tree.nodes@, x.root, node);
    assert(bb@.white_scored == bb.white_scored && bb@.black_scored == bb.black_scored);
    reveal(passed);
    reveal(crate::judged::restated);
    let a = x.tree.nodes@;
    let b = mid.tree.nodes@;
    lemma_same_way(a, b, node, k);
    assert(b[k].stats == a[k].stats && b[k].visit_count == a[k].visit_count);
}

proof fn lemma_same_way<S>(a: Seq<MCTSNode<S>>, b: Seq<MCTSNode<S>>, from: int, k: int)
    requires
        a.len() == b.len(),
        0 <= from < a.len(),
        forall|i: int| 0 <= i < a.len() ==> (#[trigger] a[i]).parent == b[i].parent,
    ensures
        on_path(a, from, k) == on_path(b, from, k),
    decreases from,
{
    if let Some(p) = a[from].parent {
        if p < from {
            lemma_same_way(a, b, p as int, k);
        }
    }
    assert(a[from].parent == b[from].parent);
}

/// A network speaks for the side to move: its worth of a position with white to
/// move is credited as it is, the same worth of one with black to move as its
/// negation.
pub proof fn law_replies_are_turned<S: Copy, W: Copy, A: Appraiser<S, W>, O: Oracle<W>>(
    x: MCTSEngine<S, W, A, O>,
    x2: MCTSEngine<S, W, A, O>,
    leaf: PendingLeaf,
    raw: Seq<W>,
    v: W,
)
    requires
        x.settled(x2, leaf, Some((raw, v))),
        0 <= leaf.node < x.tree.nodes@.len(),
    ensures
        exists|wide: MCTSEngine<S, W, A, O>, value: W|
            {
                &&& #[trigger] wide.stepped(x2, leaf.node as int, Step::Credit(value))
                &&& leaf.bb.current_player == Player::White ==> value == v
                &&& leaf.bb.current_player == Player::Black ==> call_ensures(A::negated, (&x.appraiser, v), value)
            },
{
    reveal(MCTSEngine::settled);
    let (freed, wise, wide, value, priors) = choose|
        freed: MCTSEngine<S, W, A, O>,
        wise: MCTSEngine<S, W, A, O>,
        wide: MCTSEngine<S, W, A, O>,
        value: W,
        priors: Seq<W>,
    | #[trigger] x.settles_by(x2, leaf, Some((raw, v)), freed, wise, wide, value, priors);
    assert(wide.stepped(x2, leaf.node as int, Step::Credit(value)));
}

/// A reply is remembered under the hash of its position, with its worth for white and
/// its outputs on the squares as white sees them.
#[verifier::spinoff_prover]
pub proof fn law_replies_are_remembered<S: Copy, W: Copy, A: Appraiser<S, W>, O: Oracle<W>>(
    x: MCTSEngine<S, W, A, O>,
    x2: MCTSEngine<S, W, A, O>,
    leaf: PendingLeaf,
    raw: Seq<W>,
    v: W,
    from: int,
    to: int,
)
    requires
        x.settled(x2, leaf, Some((raw, v))),
        raw.len() == 1332,
        0 <= from < 36,
        0 <= to < 36,
    ensures
        x2.network_cache@.dom().contains(leaf.bb.hash),
        leaf.bb.current_player == Player::White ==> x2.network_cache@[leaf.bb.hash].1 == v && x2.network_cache@[leaf.bb.hash].0@
            == raw,
        leaf.bb.current_player == Player::Black ==> call_ensures(
            A::negated,
            (&x.appraiser, v),
            x2.network_cache@[leaf.bb.hash].1,
        ),
        leaf.bb.current_player == Player::Black ==> {
            let up_from = 6 * (5 - from / 6) + from % 6;
            let up_to = 6 * (5 - to / 6) + to % 6;
            &&& x2.network_cache@[leaf.bb.hash].0@[36 * up_from + up_to] == raw[36 * from + to]
            &&& x2.network_cache@[leaf.bb.hash].0@[1296 + up_to] == raw[1296 + to]
        },
{
    reveal(MCTSEngine::settled);
    let up_from = 6 * (5 - from / 6) + from % 6;
    let up_to = 6 * (5 - to / 6) + to % 6;
    assert(0 <= up_from < 36 && 0 <= up_to < 36);
    assert((36 * up_from + up_to) / 36 == up_from && (36 * up_from + up_to) % 36 == up_to);
    assert((1296 + up_to) / 36 == 36 && (1296 + up_to) % 36 == up_to);
}

/// A leaf whose position is remembered is credited at once with the remembered
/// worth. One that is not, where the game goes on, waits for the network. A finished
/// game waits for its credit: one if white has won it, minus one if black has.
#[verifier::spinoff_prover]
pub proof fn law_leaves_are_gathered<S: Copy, W: Copy, A: Appraiser<S, W>, O: Oracle<W>>(
    x: MCTSEngine<S, W, A, O>,
    pending: Seq<PendingLeaf>,
    finished: Seq<(usize, W)>,
    x2: MCTSEngine<S, W, A, O>,
    more: Seq<PendingLeaf>,
    done: Seq<(usize, W)>,
    node: usize,
)
    requires
        x.gathered(pending, finished, x2, more, done, node),
        !x.tree.nodes@[node as int].is_terminal,
        board_ok(place(x.tree.nodes@, x.root, node as int), 1),
        can_act(place(x.tree.nodes@, x.root, node as int)),
    ensures
        ({
            let b = place(x.tree.nodes@, x.root, node as int);
            let over = b.white_scored == 4 || b.black_scored == 4;
            let known = x.network_cache@.dom().contains(b.hash);
            &&& !over && known ==> more == pending && done == finished && exists|wide: MCTSEngine<S, W, A, O>| #[trigger]
                wide.stepped(x2, node as int, Step::Credit(x.network_cache@[b.hash].1))
            &&& !over && !known ==> done == finished && more.len() == pending.len() + 1 && more.last().node == node
                && more.last().bb == b && x.stepped(x2, node as int, Step::Debit)
            &&& over ==> more == pending && done.len() == finished.len() + 1 && done.last().0 == node
            &&& b.white_scored == 4 ==> call_ensures(A::one, (&x.appraiser,), done.last().1)
            &&& b.black_scored == 4 && b.white_scored < 4 ==> exists|one: W|
                call_ensures(A::one, (&x.appraiser,), one) && #[trigger] call_ensures(
                    A::negated,
                    (&x.appraiser, one),
                    done.last().1,
                )
        }),
{
    reveal(MCTSEngine::gathered);
    let b = place(x.tree.nodes@, x.root, node as int);
    assert(b@.white_scored == b.white_scored && b@.black_scored == b.black_scored);
    if b@.winner() is None && x.network_cache@.dom().contains(b.hash) {
        let (moves, priors, wide) = choose|moves: Seq<BitMove>, priors: Seq<W>, wide: MCTSEngine<S, W, A, O>|
            #![trigger x.recalled(x2, node as int, b, moves, priors, wide)]
            goes_on(b, moves) && moves.len() > 0 && x.recalled(x2, node as int, b, moves, priors, wide);
        assert(wide.stepped(x2, node as int, Step::Credit(x.network_cache@[b.hash].1)));
    }
    if b@.winner() == Some(Player::Black) {
        let w = choose|w: W|
            #![trigger finished.push((node, w))]
            gives_outcome(x.appraiser, b@.winner(), w) && done == finished.push((node, w));
        let one = choose|one: W| #[trigger]
            call_ensures(A::one, (&x.appraiser,), one) && call_ensures(A::negated, (&x.appraiser, one), w);
        assert(done.last().1 == w);
        assert(call_ensures(A::negated, (&x.appraiser, one), w));
    }
}

/// Where promises can be compared by a number, no child of a node is more
/// promising than the one that a search goes on with.
pub proof fn law_the_most_promising_is_followed<S, W, A: Appraiser<S, W>>(
    a: A,
    nodes: Seq<MCTSNode<S>>,
    node: int,
    c: int,
    number: spec_fn(W) -> int,
    k: int,
    mine: W,
    other: W,
)
    requires
        repeatable::<S, W, A>(a),
        forall|x: W, y: W, r: bool| #[trigger] call_ensures(A::exceeds, (&a, x, y), r) ==> r == (number(x) > number(y)),
        forall|x: W, l: W, m: MCTSNode<S>, n: MCTSNode<S>|
            #[trigger] call_ensures(A::lowest, (&a,), l) && #[trigger] call_ensures(A::promise, (&a, &m, &n), x) ==> number(l)
                < number(x),
        favoured(a, nodes, node, c),
        nodes[node].children_start <= k < nodes[node].children_start + nodes[node].children_count,
        call_ensures(A::promise, (&a, &nodes[node], &nodes[c]), mine),
        call_ensures(A::promise, (&a, &nodes[node], &nodes[k]), other),
    ensures
        nodes[node].children_start <= c < nodes[node].children_start + nodes[node].children_count,
        number(other) <= number(mine),
{
    reveal(favoured);
    let t = choose|t: Seq<(int, W)>| #[trigger]
        leads(a, nodes, node, t) && t.len() == nodes[node].children_count + 1 && t.last().0 == c;
    let start = nodes[node].children_start as int;
    lemma_leader(a, nodes, node, t, number, t.len() - 1, k - start, other);
    reveal(repeatable);
}

/// The leader after some children is one of them and as promising as each.
proof fn lemma_leader<S, W, A: Appraiser<S, W>>(
    a: A,
    nodes: Seq<MCTSNode<S>>,
    node: int,
    t: Seq<(int, W)>,
    number: spec_fn(W) -> int,
    n: int,
    i: int,
    x: W,
)
    requires
        repeatable::<S, W, A>(a),
        forall|x: W, y: W, r: bool| #[trigger] call_ensures(A::exceeds, (&a, x, y), r) ==> r == (number(x) > number(y)),
        forall|x: W, l: W, m: MCTSNode<S>, n: MCTSNode<S>|
            #[trigger] call_ensures(A::lowest, (&a,), l) && #[trigger] call_ensures(A::promise, (&a, &m, &n), x) ==> number(l)
                < number(x),
        leads(a, nodes, node, t),
        0 <= n < t.len(),
        call_ensures(A::promise, (&a, &nodes[node], &nodes[nodes[node].children_start + i]), x),
    ensures
        n == 0 ==> call_ensures(A::lowest, (&a,), t[n].1),
        n > 0 ==> {
            &&& nodes[node].children_start <= t[n].0 < nodes[node].children_start + n
            &&& call_ensures(A::promise, (&a, &nodes[node], &nodes[t[n].0]), t[n].1)
            &&& 0 <= i < n ==> number(x) <= number(t[n].1)
        },
    decreases n,
{
    reveal(leads);
    if n > 0 {
        lemma_leader(a, nodes, node, t, number, n - 1, i, x);
        let start = nodes[node].children_start as int;
        let b = t[n - 1];
        assert(takes_lead(a, nodes, node, start + (n - 1), t[n - 1], t[n - 1 + 1]));
        let (y, ahead) = choose|y: W, ahead: bool|
            #![trigger call_ensures(A::exceeds, (&a, y, b.1), ahead)]
            {
                &&& call_ensures(A::promise, (&a, &nodes[node], &nodes[start + (n - 1)]), y)
                &&& call_ensures(A::exceeds, (&a, y, b.1), ahead)
                &&& t[n] == if ahead {
                    (start + (n - 1), y)
                } else {
                    b
                }
            };
        if i == n - 1 {
            reveal(repeatable);
            assert(x == y);
        }
    }
}

/// The reported move leads to a child of the root that no other child has more
/// visits than, and the reported visits are at least as many as each child's.
pub proof fn law_the_most_visited_is_reported<S, W, A: Appraiser<S, W>>(
    a: A,
    nodes: Seq<MCTSNode<S>>,
    r: MCTSSearchResult<W>,
)
    requires
        reports(a, nodes, r),
    ensures
        nodes[0].children_count == 0 ==> r.best_move is None,
        nodes[0].children_count > 0 ==> r.best_move is Some && exists|c: int|
            {
                &&& nodes[0].children_start <= c < nodes[0].children_start + nodes[0].children_count
                &&& r.best_move->0@ == (#[trigger] nodes[c]).bitmove@
                &&& forall|k: int|
                    nodes[0].children_start <= k < nodes[0].children_start + nodes[0].children_count ==> (
                    #[trigger] nodes[k]).visit_count <= nodes[c].visit_count
            },
{
    if nodes[0].children_count > 0 {
        let m = r.best_move->0;
        let c = choose|c: int|
            #![trigger crate::mcts::is_favourite(nodes, c)]
            crate::mcts::is_favourite(nodes, c) && m.valid() && m@ == nodes[c].bitmove@;
        assert forall|k: int|
            nodes[0].children_start <= k < nodes[0].children_start + nodes[0].children_count implies (#[trigger] nodes[k]).visit_count
            <= nodes[c].visit_count by {
            assert(crate::tree::is_child(nodes, 0, k));
        }
        assert(r.best_move->0@ == nodes[c].bitmove@);
    }
}

/// An output of the policy that no move of the root has is zero.
pub proof fn law_only_moves_get_shares<S, W, A: Appraiser<S, W>>(
    a: A,
    nodes: Seq<MCTSNode<S>>,
    r: MCTSSearchResult<W>,
    i: int,
)
    requires
        reports(a, nodes, r),
        0 <= i < 1332,
        forall|k: int|
            nodes[0].children_start <= k < nodes[0].children_start + nodes[0].children_count ==> (
            #[trigger] nodes[k]).bitmove.valid() && output_of(nodes[k].bitmove@) != i,
    ensures
        call_ensures(A::zero, (&a,), r.policy_target@[i]),
{
    reveal(gives_shares);
    if r.visits != 0 {
        let t = choose|t: Seq<Seq<W>>| #[trigger]
            sums_shares(a, nodes, r.visits, t) && t.len() == nodes[0].children_count + 1 && t.last() == r.policy_target@;
        lemma_no_share(a, nodes, r.visits, t, i, t.len() - 1);
    }
}

/// The output of an action: its square of origin, or 36 for a placement, times 36,
/// plus its destination.
pub open spec fn output_of(a: Action) -> int {
    match a {
        Action::Pail { at } => 1296 + at,
        Action::Place { to } => 1296 + to,
        Action::Walk { from, path } => 36 * from + path[path.len() - 1],
    }
}

pub(crate) proof fn lemma_output(m: BitMove)
    requires
        m.valid(),
    ensures
        0 <= output_of(m@) < 1332,
        output_of(m@) == crate::policy::policy_of(m@),
{
    if !m.pail_only() && !m.places_barrel() {
        assert(m.landings().last() == m.to_sq());
    }
}

proof fn lemma_no_share<S, W, A: Appraiser<S, W>>(a: A, nodes: Seq<MCTSNode<S>>, total: u32, t: Seq<Seq<W>>, i: int, n: int)
    requires
        sums_shares(a, nodes, total, t),
        t.len() == nodes[0].children_count + 1,
        0 <= n < t.len(),
        0 <= i < 1332,
        forall|k: int|
            nodes[0].children_start <= k < nodes[0].children_start + nodes[0].children_count ==> (
            #[trigger] nodes[k]).bitmove.valid() && output_of(nodes[k].bitmove@) != i,
    ensures
        t[n].len() == 1332,
        call_ensures(A::zero, (&a,), t[n][i]),
    decreases n,
{
    reveal(sums_shares);
    if n > 0 {
        lemma_no_share(a, nodes, total, t, i, n - 1);
        assert(crate::judged::adds_share(a, nodes[nodes[0].children_start + (n - 1)], total, t[n - 1], t[n - 1 + 1]));
        let k = nodes[0].children_start + (n - 1);
        assert(nodes[k].bitmove.valid() && output_of(nodes[k].bitmove@) != i);
        lemma_output(nodes[k].bitmove);
    }
}

/// A move of the root whose output no other move has gets its share of all visits,
/// added to zero.
pub proof fn law_moves_get_their_share<S, W, A: Appraiser<S, W>>(
    a: A,
    nodes: Seq<MCTSNode<S>>,
    r: MCTSSearchResult<W>,
    c: int,
)
    requires
        reports(a, nodes, r),
        r.visits > 0,
        nodes[0].children_start <= c < nodes[0].children_start + nodes[0].children_count,
        forall|k: int|
            nodes[0].children_start <= k < nodes[0].children_start + nodes[0].children_count ==> (
            #[trigger] nodes[k]).bitmove.valid() && (k != c ==> output_of(nodes[k].bitmove@) != output_of(
                nodes[c].bitmove@,
            )),
    ensures
        exists|zero: W|
            call_ensures(A::zero, (&a,), zero) && #[trigger] call_ensures(
                A::add_share,
                (&a, zero, nodes[c].visit_count, r.visits),
                r.policy_target@[output_of(nodes[c].bitmove@)],
            ),
{
    reveal(gives_shares);
    let t = choose|t: Seq<Seq<W>>| #[trigger]
        sums_shares(a, nodes, r.visits, t) && t.len() == nodes[0].children_count + 1 && t.last() == r.policy_target@;
    lemma_share(a, nodes, r.visits, t, c, t.len() - 1);
}

#[verifier::spinoff_prover]
#[verifier::rlimit(40)]
proof fn lemma_share<S, W, A: Appraiser<S, W>>(a: A, nodes: Seq<MCTSNode<S>>, total: u32, t: Seq<Seq<W>>, c: int, n: int)
    requires
        sums_shares(a, nodes, total, t),
        t.len() == nodes[0].children_count + 1,
        0 <= n < t.len(),
        nodes[0].children_start <= c < nodes[0].children_start + nodes[0].children_count,
        forall|k: int|
            nodes[0].children_start <= k < nodes[0].children_start + nodes[0].children_count ==> (
            #[trigger] nodes[k]).bitmove.valid() && (k != c ==> output_of(nodes[k].bitmove@) != output_of(
                nodes[c].bitmove@,
            )),
    ensures
        t[n].len() == 1332,
        n <= c - nodes[0].children_start ==> call_ensures(A::zero, (&a,), t[n][output_of(nodes[c].bitmove@)]),
        n > c - nodes[0].children_start ==> exists|zero: W|
            call_ensures(A::zero, (&a,), zero) && #[trigger] call_ensures(
                A::add_share,
                (&a, zero, nodes[c].visit_count, total),
                t[n][output_of(nodes[c].bitmove@)],
            ),
    decreases n,
{
    let i = output_of(nodes[c].bitmove@);
    lemma_output(nodes[c].bitmove);
    if n == 0 {
        reveal(sums_shares);
    } else {
        lemma_share(a, nodes, total, t, c, n - 1);
        let k = nodes[0].children_start + (n - 1);
        assert(crate::judged::adds_share(a, nodes[k], total, t[n - 1], t[n - 1 + 1])) by {
            reveal(sums_shares);
        }
        assert(nodes[k].bitmove.valid());
        lemma_output(nodes[k].bitmove);
        let j = output_of(nodes[k].bitmove@);
        let share = choose|share: W| #[trigger]
            call_ensures(A::add_share, (&a, t[n - 1][j], nodes[k].visit_count, total), share) && t[n] == t[n - 1].update(
                j,
                share,
            );
        if k != c {
            assert(j != i);
            assert(t[n][i] == t[n - 1][i]);
        } else {
            assert(call_ensures(A::add_share, (&a, t[n - 1][i], nodes[c].visit_count, total), t[n][i]));
        }
    }
}

/// Two moves share an output only where they come from the same square, or both
/// from the hand, and end on the same.
pub proof fn law_outputs_tell_moves(x: BitMove, y: BitMove, i: u16, j: u16)
    requires
        x.valid(),
        y.valid(),
        call_ensures(policy_index, (&x,), i),
        call_ensures(policy_index, (&y,), j),
    ensures
        i == j <==> x.from_code() == y.from_code() && x.to_sq() == y.to_sq(),
{
    if !x.pail_only() && !x.places_barrel() {
        assert(x.landings().last() == x.to_sq());
    }
    if !y.pail_only() && !y.places_barrel() {
        assert(y.landings().last() == y.to_sq());
    }
}

/// What the network sees: in five planes of 36 numbers the barrels of the side to
/// move, those of the other side, the pail of each, and ones. White sees the board
/// as it is, black with the rows turned around.
pub proof fn law_planes_show_pieces<T: Copy>(bb: BitBoard, zero: T, one: T, r: Vec<T>, s: int)
    requires
        zero != one,
        0 <= s < 36,
        call_ensures(bb_to_planes::<T>, (&bb, zero, one), r),
    ensures
        r@.len() == 180,
        bb.current_player == Player::White ==> {
            &&& (r@[s] == one) == (bb@.cells[s] == Cell::WhiteBarrel)
            &&& (r@[36 + s] == one) == (bb@.cells[s] == Cell::BlackBarrel)
            &&& (r@[72 + s] == one) == (bb@.cells[s] == Cell::WhitePail)
            &&& (r@[108 + s] == one) == (bb@.cells[s] == Cell::BlackPail)
        },
        bb.current_player == Player::Black ==> {
            let t = 6 * (5 - s / 6) + s % 6;
            &&& (r@[s] == one) == (bb@.cells[t] == Cell::BlackBarrel)
            &&& (r@[36 + s] == one) == (bb@.cells[t] == Cell::WhiteBarrel)
            &&& (r@[72 + s] == one) == (bb@.cells[t] == Cell::BlackPail)
            &&& (r@[108 + s] == one) == (bb@.cells[t] == Cell::WhitePail)
        },
        r@[144 + s] == one,
{
    assert(crate::policy::paints(r@, bb, zero, one));
    assert((36 + s) / 36 == 1 && (72 + s) / 36 == 2 && (108 + s) / 36 == 3 && (144 + s) / 36 == 4);
    assert((36 + s) % 36 == s && (72 + s) % 36 == s && (108 + s) % 36 == s && (144 + s) % 36 == s);
}

/// In a game with a winner every example's target is that of its side to move: a
/// win, one, where it is the winner's turn, and the negation of one where it is
/// the loser's.
pub proof fn law_value_targets_tell_the_winner<S: Copy, W: Copy, A: Appraiser<S, W>, O: Oracle<W>>(
    e: MCTSEngine<S, W, A, O>,
    g: Game<W>,
    r: SelfPlayResult<W>,
    opening: int,
    max_moves: int,
    all: bool,
    winner: Player,
    i: int,
)
    requires
        repeatable::<S, W, A>(e.appraiser),
        turns_back::<S, W, A>(e.appraiser),
        is_play(g, e.appraiser, r, opening, max_moves, all),
        e.gives_end(g.end(), g.outcome),
        r.winner == Some(winner),
        0 <= i < r.examples@.len(),
    ensures
        r.examples@.len() == g.notes.len(),
        stood(g.start, g.line, g.notes[i].at).current_player == winner ==> call_ensures(
            A::one,
            (&e.appraiser,),
            r.examples@[i].value_target,
        ),
        stood(g.start, g.line, g.notes[i].at).current_player != winner ==> exists|one: W|
            call_ensures(A::one, (&e.appraiser,), one) && #[trigger] call_ensures(
                A::negated,
                (&e.appraiser, one),
                r.examples@[i].value_target,
            ),
        winner == Player::White <==> g.end()@.white_scored == 4,
        winner == Player::Black ==> g.end()@.black_scored == 4,
{
    reveal(are_examples);
    reveal(turns_back);
    let x = r.examples@[i];
    let b = stood(g.start, g.line, g.notes[i].at);
    assert(crate::selfplay::is_example(e.appraiser, b, g.notes[i], g.outcome, x));
    if winner == Player::Black {
        let one = choose|one: W| #[trigger]
            call_ensures(A::one, (&e.appraiser,), one) && call_ensures(A::negated, (&e.appraiser, one), g.outcome);
        if b.current_player == Player::Black {
            assert(call_ensures(A::negated, (&e.appraiser, g.outcome), x.value_target));
            assert(x.value_target == one);
        }
    }
}

/// Two examples of one decided game with different sides to move have opposite
/// targets.
pub proof fn law_value_targets_are_opposite<S: Copy, W: Copy, A: Appraiser<S, W>, O: Oracle<W>>(
    e: MCTSEngine<S, W, A, O>,
    g: Game<W>,
    r: SelfPlayResult<W>,
    opening: int,
    max_moves: int,
    all: bool,
    i: int,
    j: int,
)
    requires
        repeatable::<S, W, A>(e.appraiser),
        turns_back::<S, W, A>(e.appraiser),
        is_play(g, e.appraiser, r, opening, max_moves, all),
        e.gives_end(g.end(), g.outcome),
        r.winner is Some,
        0 <= i < r.examples@.len(),
        0 <= j < r.examples@.len(),
        stood(g.start, g.line, g.notes[i].at).current_player == r.winner->0,
        stood(g.start, g.line, g.notes[j].at).current_player != r.winner->0,
    ensures
        call_ensures(A::negated, (&e.appraiser, r.examples@[i].value_target), r.examples@[j].value_target),
{
    law_value_targets_tell_the_winner(e, g, r, opening, max_moves, all, r.winner->0, i);
    law_value_targets_tell_the_winner(e, g, r, opening, max_moves, all, r.winner->0, j);
    let one = choose|one: W|
        call_ensures(A::one, (&e.appraiser,), one) && #[trigger] call_ensures(
            A::negated,
            (&e.appraiser, one),
            r.examples@[j].value_target,
        );
    assert(one == r.examples@[i].value_target) by {
        reveal(repeatable);
    }
}

/// What is noted of a position for white, an example tells its side to move: the
/// worth as it is or negated, and the policy with the squares as they are or with
/// the rows turned around.
pub proof fn law_examples_speak_for_the_side_to_move<S: Copy, W: Copy, A: Appraiser<S, W>>(
    a: A,
    g: Game<W>,
    r: SelfPlayResult<W>,
    opening: int,
    max_moves: int,
    all: bool,
    i: int,
    from: int,
    to: int,
)
    requires
        is_play(g, a, r, opening, max_moves, all),
        0 <= i < r.examples@.len(),
        g.notes[i].policy.len() == 1332,
        0 <= from < 36,
        0 <= to < 36,
    ensures
        ({
            let x = r.examples@[i];
            let note = g.notes[i];
            if stood(g.start, g.line, note.at).current_player == Player::White {
                &&& x.search_score == note.worth
                &&& x.policy_target@[36 * from + to] == note.policy[36 * from + to]
                &&& x.policy_target@[1296 + to] == note.policy[1296 + to]
            } else {
                let up_from = 6 * (5 - from / 6) + from % 6;
                let up_to = 6 * (5 - to / 6) + to % 6;
                &&& call_ensures(A::negated, (&a, note.worth), x.search_score)
                &&& x.policy_target@[36 * up_from + up_to] == note.policy[36 * from + to]
                &&& x.policy_target@[1296 + up_to] == note.policy[1296 + to]
            }
        }),
{
    reveal(are_examples);
    let x = r.examples@[i];
    let b = stood(g.start, g.line, g.notes[i].at);
    assert(crate::selfplay::is_example(a, b, g.notes[i], g.outcome, x));
    let up_from = 6 * (5 - from / 6) + from % 6;
    let up_to = 6 * (5 - to / 6) + to % 6;
    assert(0 <= up_from < 36 && 0 <= up_to < 36);
    assert((36 * up_from + up_to) / 36 == up_from && (36 * up_from + up_to) % 36 == up_to);
    assert((1296 + up_to) / 36 == 36 && (1296 + up_to) % 36 == up_to);
}

/// The counts of a match: a win is a game that the tree search's colour won, white
/// in the even games and black in the odd ones, a loss one that the other colour
/// won, a draw one that nobody did.
pub proof fn law_match_counts(winners: Seq<Option<Player>>, r: EvalMatchResult)
    requires
        counts_of(winners, r),
    ensures
        r.wins == over(
            |i: int|
                if i % 2 == 0 && winners[i] == Some(Player::White) || i % 2 == 1 && winners[i] == Some(Player::Black) {
                    1
                } else {
                    0
                },
            winners.len(),
        ),
        r.losses == over(
            |i: int|
                if i % 2 == 0 && winners[i] == Some(Player::Black) || i % 2 == 1 && winners[i] == Some(Player::White) {
                    1
                } else {
                    0
                },
            winners.len(),
        ),
        r.wins + r.draws + r.losses == winners.len(),
{
    lemma_counts(
        winners,
        winners,
        |i: int|
            if i % 2 == 0 && winners[i] == Some(Player::White) || i % 2 == 1 && winners[i] == Some(Player::Black) {
                1
            } else {
                0
            },
        |i: int|
            if i % 2 == 0 && winners[i] == Some(Player::Black) || i % 2 == 1 && winners[i] == Some(Player::White) {
                1
            } else {
                0
            },
    );
}

proof fn lemma_counts(all: Seq<Option<Player>>, some: Seq<Option<Player>>, f: spec_fn(int) -> int, g: spec_fn(int) -> int)
    requires
        some.len() <= all.len(),
        forall|i: int| 0 <= i < some.len() ==> some[i] == all[i],
        forall|i: int|
            0 <= i < all.len() ==> #[trigger] f(i) == if i % 2 == 0 && all[i] == Some(Player::White) || i % 2 == 1 && all[i]
                == Some(Player::Black) {
                1int
            } else {
                0
            },
        forall|i: int|
            0 <= i < all.len() ==> #[trigger] g(i) == if i % 2 == 0 && all[i] == Some(Player::Black) || i % 2 == 1 && all[i]
                == Some(Player::White) {
                1int
            } else {
                0
            },
    ensures
        tally_of(some).0 == over(f, some.len()),
        tally_of(some).2 == over(g, some.len()),
        tally_of(some).0 + tally_of(some).1 + tally_of(some).2 == some.len(),
    decreases some.len(),
{
    if some.len() > 0 {
        lemma_counts(all, some.drop_last(), f, g);
        let i = some.len() - 1;
        assert(f(i) == f(i) && g(i) == g(i));
        assert(some.last() == all[i]);
    }
}

/// In a match the tree search moves for its colour, and alpha-beta for the other.
pub proof fn law_match_sides<S: Copy, W: Copy, A: Appraiser<S, W>, O: Oracle<W>>(
    t: MatchTurn<S, W, A, O>,
    p: MatchRules,
    b: BitBoard,
    m: BitMove,
)
    requires
        t.leads_to(p, b, m),
    ensures
        p.mcts_is_white && b.current_player == Player::White || !p.mcts_is_white && b.current_player == Player::Black
            ==> t.from.searches_batched(t.chosen, b, p.batch_size as int, false),
        p.mcts_is_white && b.current_player == Player::Black || !p.mcts_is_white && b.current_player == Player::White
            ==> t.chosen.tree == t.from.tree && crate::turns::match_answer(
            t.from.engine,
            t.chosen.engine,
            b,
            p.depth,
            Some(m),
        ),
{
    reveal(MatchTurn::leads_to);
}

/// The winner of a match game is the side that has four barrels home at its end;
/// white is asked first.
pub proof fn law_match_winners<S: Copy, W: Copy, A: Appraiser<S, W>, O: Oracle<W>>(
    before: MCTSEngine<S, W, A, O>,
    g: MatchGame<S, W, A, O>,
    after: MCTSEngine<S, W, A, O>,
    winner: Option<Player>,
    p: MatchRules,
    opening: int,
    max_moves: int,
)
    requires
        is_match_game(before, g, after, winner, p, opening, max_moves),
    ensures
        ({
            let end = crate::selfplay::end_of(g.start, g.line)@;
            &&& winner == Some(Player::White) <==> end.white_scored == 4
            &&& winner == Some(Player::Black) <==> end.black_scored == 4 && end.white_scored != 4
        }),
{
}

} // verus!
