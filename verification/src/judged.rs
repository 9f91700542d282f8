//! What an appraiser's answers mean for a search tree, whatever they are.
use vstd::prelude::*;
use crate::bitboard::BitBoard;
use crate::bitmove::BitMove;
use crate::board::Player;
use crate::heuristic::{heuristic_of, EvalWeights};
use crate::policy::{paints, policy_of, vflipped};
use crate::tree::{grown, on_path, MCTSNode};
use crate::tree_walk::{Appraiser, Step};

verus! {

/// What was asked of the network or of chance, and what came back.
pub enum Event<W> {
    /// Noise for the moves of a root.
    Noise(Seq<W>),
    /// The outputs and the worth of one position.
    One(Seq<W>, Option<(Seq<W>, W)>),
    /// The outputs and the worths of several positions.
    Batch(Seq<Seq<W>>, Option<(Seq<Seq<W>>, Seq<W>)>),
}

/// The contents of vectors.
pub open spec fn rows<W>(v: Seq<Vec<W>>) -> Seq<Seq<W>> {
    Seq::new(v.len(), |i: int| v[i]@)
}

/// The contents of a reply.
pub open spec fn batch_reply<W>(r: Option<(Vec<Vec<W>>, Vec<W>)>) -> Option<(Seq<Seq<W>>, Seq<W>)> {
    match r {
        Some((p, v)) => Some((rows(p@), v@)),
        None => None,
    }
}

pub open spec fn one_reply<W>(r: Option<(Vec<W>, W)>) -> Option<(Seq<W>, W)> {
    match r {
        Some((p, v)) => Some((p@, v)),
        None => None,
    }
}

/// The reply for one position of a batch.
pub open spec fn reply_at<W>(reply: Option<(Seq<Seq<W>>, Seq<W>)>, i: int) -> Option<(Seq<W>, W)> {
    match reply {
        Some((p, v)) => if i < p.len() && i < v.len() {
            Some((p[i], v[i]))
        } else {
            None
        },
        None => None,
    }
}

/// `w` is the worth of a finished game for white.
pub open spec fn gives_outcome<S, W, A: Appraiser<S, W>>(a: A, outcome: Option<Player>, w: W) -> bool {
    match outcome {
        Some(Player::White) => call_ensures(A::one, (&a,), w),
        Some(Player::Black) => exists|one: W| #[trigger]
            call_ensures(A::one, (&a,), one) && call_ensures(A::negated, (&a, one), w),
        None => call_ensures(A::zero, (&a,), w),
    }
}

/// `w` is the worth of a position by its heuristic evaluation.
pub open spec fn gives_score<S, W, A: Appraiser<S, W>>(a: A, weights: EvalWeights, b: BitBoard, w: W) -> bool {
    call_ensures(A::of_score, (&a, heuristic_of(weights, b) as i32), w)
}

/// The planes show the position, in the appraiser's own zero and one.
pub open spec fn shows<S, W, A: Appraiser<S, W>>(a: A, planes: Seq<W>, b: BitBoard) -> bool {
    exists|zero: W, one: W|
        #![trigger paints(planes, b, zero, one)]
        call_ensures(A::zero, (&a,), zero) && call_ensures(A::one, (&a,), one) && paints(planes, b, zero, one)
}

/// Outputs relative to the side to move as outputs relative to white.
pub open spec fn gives_logits<S, W, A: Appraiser<S, W>>(a: A, white: bool, raw: Seq<W>, logits: Seq<W>) -> bool {
    if white {
        logits == raw
    } else {
        exists|zero: W| #[trigger] call_ensures(A::zero, (&a,), zero) && logits == vflipped(raw, zero)
    }
}

/// A worth for the side to move as a worth for white, or back.
pub open spec fn gives_turned<S, W, A: Appraiser<S, W>>(a: A, white: bool, v: W, w: W) -> bool {
    if white {
        w == v
    } else {
        call_ensures(A::negated, (&a, v), w)
    }
}

/// The shares of the moves in a policy's outputs.
pub open spec fn gives_priors<S, W, A: Appraiser<S, W>>(
    a: A,
    logits: Seq<W>,
    moves: Seq<BitMove>,
    priors: Seq<W>,
) -> bool {
    exists|l: Vec<W>, m: Vec<BitMove>, p: Vec<W>|
        l@ == logits && m@ == moves && p@ == priors && #[trigger] call_ensures(A::priors, (&a, &l, &m), p)
}

/// Equal shares for `n` moves.
pub open spec fn gives_uniform<S, W, A: Appraiser<S, W>>(a: A, n: nat, priors: Seq<W>) -> bool {
    &&& priors.len() == n
    &&& exists|share: W| #[trigger]
        call_ensures(A::uniform, (&a, n as usize), share) && priors == Seq::new(n, |i: int| share)
}

/// What the new children of a node keep of their priors; a missing prior is an
/// equal share.
pub open spec fn gives_fresh<S, W, A: Appraiser<S, W>>(a: A, n: nat, priors: Seq<W>, stats: Seq<S>) -> bool {
    &&& stats.len() == n
    &&& exists|share: W| #[trigger]
        call_ensures(A::uniform, (&a, n as usize), share) && forall|i: int|
            0 <= i < n ==> call_ensures(
                A::fresh,
                (
                    &a,
                    if i < priors.len() {
                        priors[i]
                    } else {
                        share
                    },
                ),
                #[trigger] stats[i],
            )
}

/// A leaf was given its moves as children, unless the tree would outgrow
/// `limit`.
pub open spec fn gives_children<S: Copy, W, A: Appraiser<S, W>>(
    a: A,
    before: Seq<MCTSNode<S>>,
    after: Seq<MCTSNode<S>>,
    node: int,
    bb: BitBoard,
    moves: Seq<BitMove>,
    priors: Seq<W>,
    limit: int,
) -> bool {
    if before.len() + moves.len() > limit {
        after == before
    } else {
        exists|stats: Seq<S>|
            #![trigger gives_fresh(a, moves.len(), priors, stats)]
            gives_fresh(a, moves.len(), priors, stats) && after == grown(
                before,
                node,
                moves,
                stats,
                bb.current_player == Player::White,
            )
    }
}

/// What a node keeps of a step.
pub open spec fn gives_step<S, W, A: Appraiser<S, W>>(a: A, step: Step<W>, s: S, t: S) -> bool {
    match step {
        Step::Credit(w) => call_ensures(A::credit, (&a, s, w), t),
        Step::Debit => call_ensures(A::debit, (&a, s), t),
        Step::Restore => call_ensures(A::restore, (&a, s), t),
    }
}

/// The stats on the way from a node to the root have taken a step.
#[verifier::opaque]
pub open spec fn restated<S, W, A: Appraiser<S, W>>(
    a: A,
    before: Seq<MCTSNode<S>>,
    after: Seq<MCTSNode<S>>,
    node: int,
    step: Step<W>,
) -> bool {
    forall|k: int|
        0 <= k < before.len() && on_path(before, node, k) ==> gives_step(
            a,
            step,
            before[k].stats,
            (#[trigger] after[k]).stats,
        )
}

/// The lead passes from one child of a node to the next one, `c`, if its promise
/// exceeds that of the leader.
pub open spec fn takes_lead<S, W, A: Appraiser<S, W>>(
    a: A,
    nodes: Seq<MCTSNode<S>>,
    node: int,
    c: int,
    before: (int, W),
    after: (int, W),
) -> bool {
    exists|x: W, ahead: bool|
        #![trigger call_ensures(A::exceeds, (&a, x, before.1), ahead)]
        {
            &&& call_ensures(A::promise, (&a, &nodes[node], &nodes[c]), x)
            &&& call_ensures(A::exceeds, (&a, x, before.1), ahead)
            &&& after == if ahead {
                (c, x)
            } else {
                before
            }
        }
}

/// The leaders among the children of a node, from the lowest promise on: the
/// trail begins at the first child, and each child in turn may take the lead.
#[verifier::opaque]
pub open spec fn leads<S, W, A: Appraiser<S, W>>(
    a: A,
    nodes: Seq<MCTSNode<S>>,
    node: int,
    trail: Seq<(int, W)>,
) -> bool {
    let start = nodes[node].children_start as int;
    &&& trail.len() > 0
    &&& trail[0].0 == start
    &&& call_ensures(A::lowest, (&a,), trail[0].1)
    &&& forall|i: int|
        0 <= i < trail.len() - 1 ==> takes_lead(a, nodes, node, start + i, #[trigger] trail[i], trail[i + 1])
}

/// The child is the most promising one of its node: it leads after all.
#[verifier::opaque]
pub open spec fn favoured<S, W, A: Appraiser<S, W>>(a: A, nodes: Seq<MCTSNode<S>>, node: int, c: int) -> bool {
    exists|trail: Seq<(int, W)>| #[trigger]
        leads(a, nodes, node, trail) && trail.len() == nodes[node].children_count + 1 && trail.last().0 == c
}

/// The way from the root to the node goes along the most promising children.
pub open spec fn led_to<S, W, A: Appraiser<S, W>>(a: A, nodes: Seq<MCTSNode<S>>, i: int) -> bool
    decreases i,
{
    match nodes[i].parent {
        Some(p) => p < i && favoured(a, nodes, p as int, i) && led_to(a, nodes, p as int),
        None => true,
    }
}

/// The priors of the root's children are mixed with noise.
pub open spec fn gives_mixed<S, W, A: Appraiser<S, W>>(
    a: A,
    before: Seq<MCTSNode<S>>,
    after: Seq<MCTSNode<S>>,
    noise: Seq<W>,
) -> bool {
    let start = before[0].children_start as int;
    &&& after.len() == before.len()
    &&& forall|k: int|
        0 <= k < before.len() ==> (#[trigger] after[k]) == (MCTSNode { stats: after[k].stats, ..before[k] }) && if start <= k
            < start + before[0].children_count && k - start < noise.len() {
            call_ensures(A::mix, (&a, before[k].stats, noise[k - start]), after[k].stats)
        } else {
            after[k].stats == before[k].stats
        }
}

/// A child's share of the visits is added to its policy output.
pub open spec fn adds_share<S, W, A: Appraiser<S, W>>(
    a: A,
    child: MCTSNode<S>,
    total: u32,
    before: Seq<W>,
    after: Seq<W>,
) -> bool {
    let k = policy_of(child.bitmove@);
    exists|share: W| #[trigger]
        call_ensures(A::add_share, (&a, before[k], child.visit_count, total), share) && after == before.update(k, share)
}

/// Policies from nothing but zeros on, each with one more child's share.
#[verifier::opaque]
pub open spec fn sums_shares<S, W, A: Appraiser<S, W>>(
    a: A,
    nodes: Seq<MCTSNode<S>>,
    total: u32,
    trail: Seq<Seq<W>>,
) -> bool {
    &&& trail.len() > 0
    &&& is_blank(a, trail[0])
    &&& forall|i: int|
        0 <= i < trail.len() - 1 ==> adds_share(
            a,
            nodes[nodes[0].children_start + i],
            total,
            #[trigger] trail[i],
            trail[i + 1],
        )
}

/// A policy without shares.
pub open spec fn is_blank<S, W, A: Appraiser<S, W>>(a: A, policy: Seq<W>) -> bool {
    exists|zero: W| #[trigger] call_ensures(A::zero, (&a,), zero) && policy == Seq::new(1332, |i: int| zero)
}

/// The share of the visits by policy output, summed over the root's children;
/// none without visits.
#[verifier::opaque]
pub open spec fn gives_shares<S, W, A: Appraiser<S, W>>(
    a: A,
    nodes: Seq<MCTSNode<S>>,
    total: u32,
    policy: Seq<W>,
) -> bool {
    if total == 0 {
        is_blank(a, policy)
    } else {
        exists|trail: Seq<Seq<W>>| #[trigger]
            sums_shares(a, nodes, total, trail) && trail.len() == nodes[0].children_count + 1 && trail.last() == policy
    }
}

} // verus!
