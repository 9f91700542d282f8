//! Monte Carlo tree search with leaves evaluated in batches.
use vstd::prelude::*;
use crate::bitboard::BitBoard;
use crate::bitmove::BitMove;
use crate::board::Player;
use crate::judged::{
    batch_reply, gives_children, gives_logits, gives_outcome, gives_priors, gives_score, gives_turned, gives_uniform,
    led_to, reply_at, restated, rows, shows, Event,
};
use crate::leaf_cache::remembers;
use crate::mcts::{
    crowded, lemma_no_visits, lemma_root_can_act, lemma_wrapped_steps, reports, MCTSEngine, MCTSSearchResult, NODE_LIMIT,
};
use crate::node::{board_ok, can_act, legal_moves};
use crate::policy::{bb_to_planes, paints, vflip_policy};
use crate::tree::{children_ok, goes_on, lemma_same_shape, linked, place, same_shape, MCTSNode};
use crate::tree_walk::{
    classify, continues, lemma_continues_place, lemma_continues_refl, lemma_continues_root, lemma_continues_trans,
    lemma_passed_continues, lemma_passed_tally, lemma_same_tally, passed, tally, visits_below, wrapped, Appraiser, Leaf,
    Oracle, Step,
};

verus! {

/// A leaf that waits for the network.
pub struct PendingLeaf {
    pub node: usize,
    pub bb: BitBoard,
    pub moves: Vec<BitMove>,
}

impl PendingLeaf {
    /// The leaf is a node below the root, with its position and moves.
    pub open spec fn of<S>(&self, nodes: Seq<MCTSNode<S>>, root: BitBoard) -> bool {
        &&& 0 < self.node < nodes.len()
        &&& self.bb == place(nodes, root, self.node as int)
        &&& goes_on(self.bb, self.moves@)
        &&& self.moves@.len() > 0
        &&& board_ok(self.bb, 0)
    }
}

/// All leaves belong to the tree.
pub open spec fn all_of<S>(pending: Seq<PendingLeaf>, nodes: Seq<MCTSNode<S>>, root: BitBoard) -> bool {
    forall|i: int| 0 <= i < pending.len() ==> (#[trigger] pending[i]).of(nodes, root)
}

/// All nodes of the list lie below the root.
pub open spec fn all_below<S, W>(list: Seq<(usize, W)>, nodes: Seq<MCTSNode<S>>) -> bool {
    forall|i: int| 0 <= i < list.len() ==> 0 < (#[trigger] list[i]).0 < nodes.len()
}

#[verifier::spinoff_prover]
proof fn lemma_all_of<S>(pending: Seq<PendingLeaf>, a: Seq<MCTSNode<S>>, b: Seq<MCTSNode<S>>, root: BitBoard)
    requires
        all_of(pending, a, root),
        continues(a, b),
    ensures
        all_of(pending, b, root),
{
    assert forall|i: int| 0 <= i < pending.len() implies (#[trigger] pending[i]).of(b, root) by {
        lemma_continues_place(a, b, root, pending[i].node as int);
    }
}

/// What was asked from some place of the log on: batches of one to `most`
/// positions.
pub open spec fn asks_batches<W>(log: Seq<Event<W>>, from: int, most: int) -> bool {
    forall|i: int|
        from <= i < log.len() ==> ((#[trigger] log[i]) matches Event::Batch(planes, reply) && 1 <= planes.len() <= most)
}

/// A copy of the contents.
#[verifier::spinoff_prover]
fn copied<W: Copy>(v: &Vec<W>) -> (r: Vec<W>)
    ensures
        r@ == v@,
{
    let mut r: Vec<W> = Vec::with_capacity(v.len());
    let mut i: usize = 0;
    while i < v.len()
        invariant
            i <= v@.len(),
            r@ =~= v@.subrange(0, i as int),
        decreases v@.len() - i,
    {
        r.push(v[i]);
        i = i + 1;
    }
    assert(r@ =~= v@);
    r
}

impl<S: Copy, W: Copy, A: Appraiser<S, W>, O: Oracle<W>> MCTSEngine<S, W, A, O> {
    /// A step went up from a node, and nothing else changed.
    pub open spec fn stepped(&self, after: Self, node: int, step: Step<W>) -> bool {
        &&& after == (MCTSEngine { tree: after.tree, ..*self })
        &&& passed(self.tree.nodes@, after.tree.nodes@, node, step.delta())
        &&& restated(self.appraiser, self.tree.nodes@, after.tree.nodes@, node, step)
    }

    /// A leaf was expanded, unless it was one no longer.
    pub open spec fn widened(
        &self,
        after: Self,
        node: int,
        bb: BitBoard,
        moves: Seq<BitMove>,
        priors: Seq<W>,
    ) -> bool {
        let n = self.tree.nodes@[node];
        if n.children_count == 0 && !n.is_terminal {
            &&& after == (MCTSEngine { tree: after.tree, ..*self })
            &&& gives_children(
                self.appraiser,
                self.tree.nodes@,
                after.tree.nodes@,
                node,
                bb,
                moves,
                priors,
                NODE_LIMIT as int,
            )
        } else {
            after == *self
        }
    }

    /// A leaf whose position the cache knows was expanded and credited at once.
    pub open spec fn recalled(&self, after: Self, node: int, bb: BitBoard, moves: Seq<BitMove>, priors: Seq<W>, wide: Self) -> bool {
        let known = self.network_cache@[bb.hash];
        &&& gives_priors(self.appraiser, known.0@, moves, priors)
        &&& self.widened(wide, node, bb, moves, priors)
        &&& wide.stepped(after, node, Step::Credit(known.1))
    }

    /// One leaf was gathered: the most promising one. A finished game joins the
    /// finished ones with its worth, a position that the cache knows is settled
    /// at once, and any other is held and joins the pending ones.
    #[verifier::opaque]
    pub open spec fn gathered(
        &self,
        pending: Seq<PendingLeaf>,
        finished: Seq<(usize, W)>,
        after: Self,
        more: Seq<PendingLeaf>,
        done: Seq<(usize, W)>,
        node: usize,
    ) -> bool {
        let nodes = self.tree.nodes@;
        let bb = place(nodes, self.root, node as int);
        &&& linked(nodes)
        &&& node < nodes.len()
        &&& nodes[node as int].children_count == 0
        &&& led_to(self.appraiser, nodes, node as int)
        &&& if nodes[node as int].is_terminal {
            &&& after == *self
            &&& more == pending
            &&& exists|w: W|
                #![trigger finished.push((node, w))]
                gives_outcome(self.appraiser, nodes[node as int].outcome, w) && done == finished.push((node, w))
        } else if bb@.winner() is Some || !can_act(bb) || !board_ok(bb, 1) {
            &&& after == (MCTSEngine { tree: after.tree, ..*self })
            &&& after.tree.nodes@ == nodes.update(
                node as int,
                MCTSNode { is_terminal: true, outcome: bb@.winner(), ..nodes[node as int] },
            )
            &&& more == pending
            &&& exists|w: W|
                #![trigger finished.push((node, w))]
                gives_outcome(self.appraiser, bb@.winner(), w) && done == finished.push((node, w))
        } else if self.network_cache@.dom().contains(bb.hash) {
            &&& more == pending
            &&& done == finished
            &&& exists|moves: Seq<BitMove>, priors: Seq<W>, wide: Self|
                #![trigger self.recalled(after, node as int, bb, moves, priors, wide)]
                goes_on(bb, moves) && moves.len() > 0 && self.recalled(after, node as int, bb, moves, priors, wide)
        } else {
            &&& done == finished
            &&& more.len() == pending.len() + 1
            &&& more.drop_last() == pending
            &&& more.last().node == node
            &&& more.last().bb == bb
            &&& goes_on(bb, more.last().moves@)
            &&& more.last().moves@.len() > 0
            &&& self.stepped(after, node as int, Step::Debit)
        }
    }

    /// The cache remembers a position's outputs and worth, both for white.
    pub open spec fn learned(&self, after: Self, hash: u64, logits: Seq<W>, value: W) -> bool {
        &&& after == (MCTSEngine { network_cache: after.network_cache, ..*self })
        &&& exists|l: Vec<W>|
            #![trigger remembers(self.network_cache@, hash, (l, value))]
            l@ == logits && after.network_cache@ == remembers(self.network_cache@, hash, (l, value))
    }

    /// What a reply makes of a position: the worth and the outputs for white,
    /// remembered, and the priors from them. Without a reply the heuristic's
    /// worth and equal priors stand in.
    pub open spec fn replied(
        &self,
        after: Self,
        bb: BitBoard,
        moves: Seq<BitMove>,
        reply: Option<(Seq<W>, W)>,
        value: W,
        priors: Seq<W>,
    ) -> bool {
        let a = self.appraiser;
        let white = bb.current_player == Player::White;
        match reply {
            Some((raw, v)) => exists|logits: Seq<W>|
                #![trigger gives_priors(a, logits, moves, priors)]
                {
                    &&& gives_turned(a, white, v, value)
                    &&& gives_logits(a, white, raw, logits)
                    &&& gives_priors(a, logits, moves, priors)
                    &&& self.learned(after, bb.hash, logits, value)
                },
            None => {
                &&& after == *self
                &&& gives_score(a, self.engine.weights, bb, value)
                &&& gives_uniform(a, moves.len(), priors)
            },
        }
    }

    /// The parts of settling a leaf: the held visits are taken back, the reply
    /// is made use of, and the leaf is expanded and credited.
    pub open spec fn settles_by(
        &self,
        after: Self,
        leaf: PendingLeaf,
        reply: Option<(Seq<W>, W)>,
        freed: Self,
        wise: Self,
        wide: Self,
        value: W,
        priors: Seq<W>,
    ) -> bool {
        &&& self.stepped(freed, leaf.node as int, Step::Restore)
        &&& freed.replied(wise, leaf.bb, leaf.moves@, reply, value, priors)
        &&& wise.widened(wide, leaf.node as int, leaf.bb, leaf.moves@, priors)
        &&& wide.stepped(after, leaf.node as int, Step::Credit(value))
    }

    /// A pending leaf was settled with its reply.
    #[verifier::opaque]
    pub open spec fn settled(&self, after: Self, leaf: PendingLeaf, reply: Option<(Seq<W>, W)>) -> bool {
        exists|freed: Self, wise: Self, wide: Self, value: W, priors: Seq<W>| #[trigger]
            self.settles_by(after, leaf, reply, freed, wise, wide, value, priors)
    }

    /// All pending leaves were settled, one after another.
    #[verifier::opaque]
    pub open spec fn settles(chain: Seq<Self>, pending: Seq<PendingLeaf>, reply: Option<(Seq<Seq<W>>, Seq<W>)>) -> bool {
        &&& chain.len() > 0
        &&& chain.len() <= pending.len() + 1
        &&& forall|k: int|
            0 <= k < chain.len() - 1 ==> (#[trigger] chain[k]).settled(chain[k + 1], pending[k], reply_at(reply, k))
    }

    /// The planes show the pending positions.
    pub open spec fn shows_all(&self, planes: Seq<Seq<W>>, pending: Seq<PendingLeaf>) -> bool {
        planes.len() == pending.len() && forall|i: int|
            0 <= i < planes.len() ==> shows(self.appraiser, #[trigger] planes[i], pending[i].bb)
    }

    /// The network was asked for all pending positions together, and they were
    /// settled with its reply; without pending positions nothing happens.
    #[verifier::opaque]
    pub open spec fn settled_all(&self, after: Self, pending: Seq<PendingLeaf>) -> bool {
        if pending.len() == 0 {
            after == *self
        } else {
            exists|planes: Seq<Seq<W>>, reply: Option<(Seq<Seq<W>>, Seq<W>)>, chain: Seq<Self>|
                #![trigger self.log@.push(Event::Batch(planes, reply)), Self::settles(chain, pending, reply)]
                {
                    &&& self.shows_all(planes, pending)
                    &&& chain.len() == pending.len() + 1
                    &&& chain[0] == (MCTSEngine { oracle: chain[0].oracle, log: chain[0].log, ..*self })
                    &&& chain[0].log@ == self.log@.push(Event::Batch(planes, reply))
                    &&& Self::settles(chain, pending, reply)
                    &&& chain.last() == after
                }
        }
    }

    /// Leaves were gathered one after another.
    #[verifier::opaque]
    pub open spec fn gathers(chain: Seq<(Self, Seq<PendingLeaf>, Seq<(usize, W)>)>) -> bool {
        &&& chain.len() > 0
        &&& chain[0].1.len() == 0
        &&& chain[0].2.len() == 0
        &&& forall|k: int|
            0 <= k < chain.len() - 1 ==> Self::gathers_on(#[trigger] chain[k], chain[k + 1])
    }

    /// Some leaf was gathered.
    pub open spec fn gathers_on(
        a: (Self, Seq<PendingLeaf>, Seq<(usize, W)>),
        b: (Self, Seq<PendingLeaf>, Seq<(usize, W)>),
    ) -> bool {
        exists|node: usize| #[trigger] a.0.gathered(a.1, a.2, b.0, b.1, b.2, node)
    }

    /// Finished games were credited one after another.
    #[verifier::opaque]
    pub open spec fn credits(chain: Seq<Self>, finished: Seq<(usize, W)>) -> bool {
        &&& chain.len() > 0
        &&& chain.len() <= finished.len() + 1
        &&& forall|k: int|
            0 <= k < chain.len() - 1 ==> (#[trigger] chain[k]).stepped(
                chain[k + 1],
                finished[k].0 as int,
                Step::Credit(finished[k].1),
            )
    }

    /// One batch of `n` simulations was run: `n` leaves gathered, the pending
    /// ones settled together, and the finished games credited.
    #[verifier::opaque]
    pub open spec fn batched(&self, after: Self, n: int) -> bool {
        exists|found: Seq<(Self, Seq<PendingLeaf>, Seq<(usize, W)>)>, last: Seq<Self>|
            #![trigger Self::gathers(found), Self::credits(last, found.last().2)]
            {
                &&& Self::gathers(found)
                &&& found.len() == n + 1
                &&& found[0].0 == *self
                &&& found.last().0.settled_all(last[0], found.last().1)
                &&& Self::credits(last, found.last().2)
                &&& last.len() == found.last().2.len() + 1
                &&& last.last() == after
            }
    }

    /// Batch follows batch, each with how many simulations were left before it.
    #[verifier::opaque]
    pub open spec fn batches(chain: Seq<(Self, int)>, size: int) -> bool {
        &&& chain.len() > 0
        &&& forall|k: int|
            0 <= k < chain.len() - 1 ==> {
                let n = if size < (#[trigger] chain[k]).1 {
                    size
                } else {
                    chain[k].1
                };
                chain[k].1 > 0 && chain[k].0.batched(chain[k + 1].0, n) && chain[k + 1].1 == chain[k].1 - n
            }
    }

    /// All simulations were run in batches.
    pub open spec fn ran_batches(&self, after: Self, size: int) -> bool {
        exists|chain: Seq<(Self, int)>| #[trigger]
            Self::batches(chain, size) && chain[0] == (*self, self.simulations as int) && chain.last() == (after, 0int)
    }

    /// The parts of opening a root that has moves: the network is asked for its
    /// planes alone, the reply gives priors and worth, and the root is expanded
    /// and credited with its first visit.
    pub open spec fn opens_by(
        &self,
        after: Self,
        bb: BitBoard,
        moves: Seq<BitMove>,
        planes: Seq<W>,
        reply: Option<(Seq<Seq<W>>, Seq<W>)>,
        logits: Seq<W>,
        priors: Seq<W>,
        value: W,
        open: Seq<MCTSNode<S>>,
    ) -> bool {
        let a = self.appraiser;
        let white = bb.current_player == Player::White;
        &&& goes_on(bb, moves)
        &&& moves.len() > 0
        &&& shows(a, planes, bb)
        &&& after == (MCTSEngine { tree: after.tree, oracle: after.oracle, log: after.log, ..*self })
        &&& after.log@ == self.log@.push(Event::Batch(seq![planes], reply))
        &&& match reply_at(reply, 0) {
            Some((raw, v)) => gives_turned(a, white, v, value) && gives_logits(a, white, raw, logits) && gives_priors(
                a,
                logits,
                moves,
                priors,
            ),
            None => gives_score(a, self.engine.weights, bb, value) && gives_uniform(a, moves.len(), priors),
        }
        &&& gives_children(a, self.tree.nodes@, open, 0, bb, moves, priors, NODE_LIMIT as int)
        &&& after.tree.nodes@ == open.update(
            0,
            MCTSNode { visit_count: 1, stats: after.tree.nodes@[0].stats, ..open[0] },
        )
        &&& call_ensures(A::credit, (&a, open[0].stats, value), after.tree.nodes@[0].stats)
    }

    /// A root was opened, if its side can act.
    #[verifier::opaque]
    pub open spec fn root_opened(&self, after: Self, bb: BitBoard) -> bool {
        if !can_act(bb) || !board_ok(bb, 1) {
            after == *self
        } else {
            exists|moves: Seq<BitMove>, planes: Seq<W>, reply: Option<(Seq<Seq<W>>, Seq<W>)>, logits: Seq<W>, priors: Seq<W>, value: W, open: Seq<MCTSNode<S>>|
             #[trigger]
                self.opens_by(after, bb, moves, planes, reply, logits, priors, value, open)
        }
    }

    /// What a batch search does with an expanded root.
    pub open spec fn finishes_batched(&self, after: Self, size: int, add_noise: bool) -> bool {
        if self.tree.nodes@[0].children_count == 0 {
            after == *self
        } else {
            exists|ready: Self| #[trigger]
                self.readied(ready, add_noise) && if self.tree.nodes@[0].children_count == 1 {
                    ready.settled_only(after)
                } else {
                    ready.ran_batches(after, size)
                }
        }
    }

    /// What a batch search does: a new root, unless the tree serves already, is
    /// opened, and the search goes on from it.
    #[verifier::opaque]
    pub open spec fn searches_batched(&self, after: Self, bb: BitBoard, size: int, add_noise: bool) -> bool {
        if self.reuses(bb) {
            self.finishes_batched(after, size, add_noise)
        } else {
            exists|fresh: Self, open: Self|
                #![trigger fresh.root_opened(open, bb)]
                self.rooted(fresh, bb) && fresh.root_opened(open, bb) && open.finishes_batched(after, size, add_noise)
        }
    }

    /// What the oracle is asked by a batch search: for a new root its planes
    /// alone, then noise if wanted, then batches of one to `size` positions.
    #[verifier::opaque]
    pub open spec fn asked_in_order(&self, after: Self, bb: BitBoard, size: int, add_noise: bool) -> bool {
        let n = self.log@.len() as int;
        let first = if !self.reuses(bb) && can_act(bb) && board_ok(bb, 1) {
            1int
        } else {
            0
        };
        let noise = if add_noise && after.tree.nodes@[0].children_count > 0 {
            1int
        } else {
            0
        };
        &&& after.log@.len() >= n + first + noise
        &&& after.log@.subrange(0, n) == self.log@
        &&& first == 1 ==> (after.log@[n] matches Event::Batch(planes, reply) && planes.len() == 1 && shows(
            self.appraiser,
            planes[0],
            bb,
        ))
        &&& noise == 1 ==> after.log@[n + first] is Noise
        &&& asks_batches(after.log@, n + first + noise, size)
    }

    /// Goes up from a node below the root.
    #[verifier::spinoff_prover]
    fn pass(&mut self, node: usize, step: Step<W>)
        requires
            old(self).wf(),
            0 < node < old(self).tree.nodes@.len(),
            old(self).tree.nodes@[0].children_count > 0,
        ensures
            old(self).goes_to(*final(self)),
            tally(final(self).tree.nodes@) == wrapped(tally(old(self).tree.nodes@) + step.delta()),
            final(self).tree.nodes@.len() == old(self).tree.nodes@.len(),
            old(self).stepped(*final(self), node as int, step),
    {
        let ghost n0 = self.tree.nodes@;
        self.tree.pass_up(node, step, &self.appraiser);
        proof {
            lemma_passed_continues(n0, self.tree.nodes@, node as int, step.delta());
            lemma_passed_tally(n0, self.tree.nodes@, node as int, step.delta());
        }
    }

    /// Expands a leaf unless that has happened since it was found.
    #[verifier::spinoff_prover]
    fn expand_if_leaf(&mut self, leaf: &PendingLeaf, priors: &Vec<W>)
        requires
            old(self).wf(),
            leaf.of(old(self).tree.nodes@, old(self).root),
            old(self).tree.nodes@[0].children_count > 0,
        ensures
            old(self).goes_to(*final(self)),
            tally(final(self).tree.nodes@) == tally(old(self).tree.nodes@),
            old(self).widened(*final(self), leaf.node as int, leaf.bb, leaf.moves@, priors@),
    {
        let ghost n0 = self.tree.nodes@;
        proof {
            lemma_continues_refl(n0);
        }
        if self.tree.nodes[leaf.node].children_count == 0 && !self.tree.nodes[leaf.node].is_terminal {
            self.expand_node(leaf.node, &leaf.bb, &leaf.moves, priors);
            proof {
                lemma_same_tally(n0, self.tree.nodes@);
            }
        }
    }

    /// Walks to one leaf. A finished game goes on the list of finished ones, a
    /// position that the cache knows is expanded and counted at once, and any
    /// other leaf is held as pending, with visits that keep others away.
    #[verifier::spinoff_prover]
    fn gather_leaf(&mut self, pending: &mut Vec<PendingLeaf>, finished: &mut Vec<(usize, W)>)
        requires
            old(self).wf(),
            old(self).tree.nodes@.len() > 0,
            old(self).tree.nodes@[0].children_count > 0,
            all_of(old(pending)@, old(self).tree.nodes@, old(self).root),
            all_below(old(finished)@, old(self).tree.nodes@),
        ensures
            old(self).goes_to(*final(self)),
            all_of(final(pending)@, final(self).tree.nodes@, final(self).root),
            all_below(final(finished)@, final(self).tree.nodes@),
            ({
                let p = final(pending)@.len() - old(pending)@.len();
                let f = final(finished)@.len() - old(finished)@.len();
                &&& 0 <= p
                &&& 0 <= f
                &&& p + f <= 1
                &&& tally(final(self).tree.nodes@) == wrapped(tally(old(self).tree.nodes@) + 3 * p + (1 - p - f))
            }),
            Self::gathers_on(
                (*old(self), old(pending)@, old(finished)@),
                (*final(self), final(pending)@, final(finished)@),
            ),
            final(self).log == old(self).log,
    {
        let ghost n0 = self.tree.nodes@;
        let root: BitBoard = self.root;
        let (node, sim): (usize, BitBoard) = self.tree.descend(&root, &self.appraiser);
        proof {
            reveal(MCTSEngine::gathered);
            lemma_continues_refl(n0);
            lemma_wrapped_steps(tally(n0) as int, 0, 0);
        }
        if self.tree.nodes[node].is_terminal {
            let w: W = self.outcome_value(self.tree.nodes[node].outcome);
            finished.push((node, w));
            proof {
                lemma_gathered(*old(self), old(pending)@, old(finished)@, *self, pending@, finished@, node);
            }
            return;
        }
        match classify(&sim) {
            Leaf::Over(outcome) => {
                self.finish_leaf(node, outcome);
                let w: W = self.outcome_value(outcome);
                proof {
                    lemma_same_tally(n0, self.tree.nodes@);
                    lemma_all_of(pending@, n0, self.tree.nodes@, root);
                }
                finished.push((node, w));
                proof {
                    lemma_gathered(*old(self), old(pending)@, old(finished)@, *self, pending@, finished@, node);
                }
            },
            Leaf::Open(moves) => {
                proof {
                    assert(board_ok(sim, 1)) by {
                        reveal(goes_on);
                    }
                }
                let known: Option<(Vec<W>, W)> = match self.network_cache.get(sim.hash) {
                    Some(hit) => Some((self.appraiser.priors(&hit.0, &moves), hit.1)),
                    None => None,
                };
                let leaf = PendingLeaf { node, bb: sim, moves };
                match known {
                    Some((priors, value)) => {
                        proof {
                            assert(gives_priors(
                                self.appraiser,
                                self.network_cache@[sim.hash].0@,
                                leaf.moves@,
                                priors@,
                            ));
                        }
                        self.expand_if_leaf(&leaf, &priors);
                        let ghost n1 = self.tree.nodes@;
                        let ghost wide = *self;
                        proof {
                            lemma_continues_root(n0, n1);
                        }
                        self.pass(node, Step::Credit(value));
                        proof {
                            lemma_continues_trans(n0, n1, self.tree.nodes@);
                            lemma_all_of(pending@, n0, self.tree.nodes@, root);
                            assert(old(self).recalled(*self, node as int, sim, leaf.moves@, priors@, wide));
                            lemma_gathered(*old(self), old(pending)@, old(finished)@, *self, pending@, finished@, node);
                        }
                    },
                    None => {
                        self.pass(node, Step::Debit);
                        proof {
                            lemma_all_of(pending@, n0, self.tree.nodes@, root);
                            lemma_continues_place(n0, self.tree.nodes@, root, node as int);
                        }
                        pending.push(leaf);
                        proof {
                            assert(pending@.drop_last() =~= old(pending)@);
                            lemma_gathered(*old(self), old(pending)@, old(finished)@, *self, pending@, finished@, node);
                        }
                    },
                }
            },
        }
    }

    /// Settles a pending leaf with the network's reply, if there is one: takes
    /// the held visits back, remembers the reply, expands and counts the leaf.
    #[verifier::spinoff_prover]
    fn settle_leaf(&mut self, leaf: &PendingLeaf, reply: Option<(&Vec<W>, W)>)
        requires
            old(self).wf(),
            leaf.of(old(self).tree.nodes@, old(self).root),
            old(self).tree.nodes@[0].children_count > 0,
        ensures
            old(self).goes_to(*final(self)),
            tally(final(self).tree.nodes@) == wrapped(tally(old(self).tree.nodes@) - 2),
            old(self).settled(
                *final(self),
                *leaf,
                match reply {
                    Some((raw, v)) => Some((raw@, v)),
                    None => None,
                },
            ),
            final(self).log == old(self).log,
    {
        let ghost n0 = self.tree.nodes@;
        let root: BitBoard = self.root;
        self.pass(leaf.node, Step::Restore);
        let ghost n1 = self.tree.nodes@;
        proof {
            lemma_continues_place(n0, n1, root, leaf.node as int);
            lemma_continues_root(n0, n1);
            assert(leaf.bb.wf()) by {
                reveal(board_ok);
            }
        }
        let white: bool = leaf.bb.current_player == Player::White;
        let ghost freed = *self;
        let ghost told = match reply {
            Some((raw, v)) => Some((raw@, v)),
            None => None,
        };
        let (value, priors): (W, Vec<W>) = match reply {
            Some((raw, v)) => {
                let zero: W = self.appraiser.zero();
                let value: W = if white { v } else { self.appraiser.negated(v) };
                let logits: Vec<W> = if white { copied(raw) } else { vflip_policy(raw, zero) };
                let priors = self.appraiser.priors(&logits, &leaf.moves);
                let ghost l = logits@;
                let ghost entry = (logits, value);
                self.network_cache.put(leaf.bb.hash, (logits, value));
                proof {
                    assert(gives_logits(freed.appraiser, white, raw@, l));
                    assert(gives_priors(freed.appraiser, l, leaf.moves@, priors@));
                    assert(self.network_cache@ == remembers(freed.network_cache@, leaf.bb.hash, (entry.0, value)));
                    assert(freed.learned(*self, leaf.bb.hash, l, value));
                }
                (value, priors)
            },
            None => {
                let score: i32 = self.engine.evaluate_heuristic(&leaf.bb);
                (self.appraiser.of_score(score), self.uniform_priors(leaf.moves.len()))
            },
        };
        let ghost wise = *self;
        proof {
            assert(freed.replied(wise, leaf.bb, leaf.moves@, told, value, priors@));
        }
        self.expand_if_leaf(leaf, &priors);
        let ghost wide = *self;
        let ghost n2 = self.tree.nodes@;
        proof {
            lemma_continues_trans(n0, n1, n2);
            lemma_continues_root(n0, n2);
        }
        self.pass(leaf.node, Step::Credit(value));
        proof {
            lemma_continues_trans(n0, n2, self.tree.nodes@);
            lemma_wrapped_steps(tally(n0) as int, -3, 1);
            reveal(MCTSEngine::settled);
            assert(old(self).settles_by(*self, *leaf, told, freed, wise, wide, value, priors@));
        }
    }

    /// The planes of all pending leaves.
    #[verifier::spinoff_prover]
    fn batch_planes(&self, pending: &Vec<PendingLeaf>) -> (r: Vec<Vec<W>>)
        requires
            forall|i: int| 0 <= i < pending@.len() ==> board_ok((#[trigger] pending@[i]).bb, 0),
        ensures
            self.shows_all(rows(r@), pending@),
    {
        let zero: W = self.appraiser.zero();
        let one: W = self.appraiser.one();
        let mut r: Vec<Vec<W>> = Vec::new();
        let mut i: usize = 0;
        while i < pending.len()
            invariant
                i <= pending@.len(),
                r@.len() == i,
                forall|k: int| 0 <= k < pending@.len() ==> board_ok((#[trigger] pending@[k]).bb, 0),
                call_ensures(A::zero, (&self.appraiser,), zero),
                call_ensures(A::one, (&self.appraiser,), one),
                forall|k: int| 0 <= k < r@.len() ==> paints((#[trigger] r@[k])@, pending@[k].bb, zero, one),
            decreases pending@.len() - i,
        {
            proof {
                assert(pending@[i as int].bb.wf()) by {
                    assert(board_ok(pending@[i as int].bb, 0));
                    reveal(board_ok);
                }
            }
            r.push(bb_to_planes(&pending[i].bb, zero, one));
            i = i + 1;
        }
        proof {
            assert forall|k: int| 0 <= k < r@.len() implies shows(self.appraiser, #[trigger] rows(r@)[k], pending@[k].bb) by {
                assert(paints(r@[k]@, pending@[k].bb, zero, one));
            }
        }
        r
    }
}

impl<S: Copy, W: Copy, A: Appraiser<S, W>, O: Oracle<W>> MCTSEngine<S, W, A, O> {
    /// One batch of `n` simulations.
    #[verifier::spinoff_prover]
    fn run_batch(&mut self, n: u32)
        requires
            old(self).wf(),
            old(self).tree.nodes@.len() > 0,
            old(self).tree.nodes@[0].children_count > 0,
        ensures
            old(self).goes_to(*final(self)),
            tally(final(self).tree.nodes@) == wrapped(tally(old(self).tree.nodes@) + n),
            old(self).batched(*final(self), n as int),
            final(self).log@.len() >= old(self).log@.len(),
            final(self).log@.subrange(0, old(self).log@.len() as int) == old(self).log@,
            asks_batches(final(self).log@, old(self).log@.len() as int, n as int),
    {
        let ghost n0 = self.tree.nodes@;
        let ghost base = tally(n0) as int;
        let ghost root = self.root;
        let mut pending: Vec<PendingLeaf> = Vec::new();
        let mut finished: Vec<(usize, W)> = Vec::new();
        proof {
            lemma_continues_refl(n0);
            lemma_wrapped_steps(base, 0, 0);
        }
        let ghost mut found: Seq<(Self, Seq<PendingLeaf>, Seq<(usize, W)>)> = seq![(*self, pending@, finished@)];
        proof {
            reveal(MCTSEngine::gathers);
        }
        let mut i: u32 = 0;
        while i < n
            invariant
                i <= n,
                n0 == old(self).tree.nodes@,
                linked(n0),
                n0.len() > 0,
                n0[0].children_count > 0,
                base == tally(n0),
                old(self).goes_to(*self),
                root == self.root,
                all_of(pending@, self.tree.nodes@, self.root),
                all_below(finished@, self.tree.nodes@),
                pending@.len() + finished@.len() <= i,
                tally(self.tree.nodes@) == wrapped(base + (i + 2 * pending@.len() - finished@.len())),
                self.log == old(self).log,
                found.len() == i + 1,
                found[0].0 == *old(self),
                found.last() == (*self, pending@, finished@),
                MCTSEngine::gathers(found),
            decreases n - i,
        {
            let ghost before = found;
            let ghost n1 = self.tree.nodes@;
            let ghost p = pending@.len() as int;
            let ghost f = finished@.len() as int;
            proof {
                lemma_continues_root(n0, n1);
            }
            self.gather_leaf(&mut pending, &mut finished);
            proof {
                lemma_continues_trans(n0, n1, self.tree.nodes@);
                let dp = pending@.len() - p;
                let df = finished@.len() - f;
                lemma_wrapped_steps(base, i + 2 * p - f, 3 * dp + (1 - dp - df));
                assert(base + (i + 2 * p - f + (3 * dp + (1 - dp - df))) == base + (i + 1 + 2 * pending@.len()
                    - finished@.len()));
                found = found.push((*self, pending@, finished@));
                assert(found.drop_last() =~= before);
                lemma_gathers_step(before, found);
            }
            i = i + 1;
        }
        let ghost gone = *self;
        self.settle_all(&pending, Ghost(n0), Ghost(base + (n - pending@.len() - finished@.len()) as int));
        let ghost held = n - finished@.len();
        let ghost mut last: Seq<Self> = seq![*self];
        proof {
            reveal(MCTSEngine::credits);
        }
        let mut k: usize = 0;
        while k < finished.len()
            invariant
                k <= finished@.len(),
                n0 == old(self).tree.nodes@,
                linked(n0),
                n0.len() > 0,
                n0[0].children_count > 0,
                old(self).goes_to(*self),
                all_below(finished@, self.tree.nodes@),
                held == n - finished@.len(),
                tally(self.tree.nodes@) == wrapped(base + (held + k)),
                last.len() == k + 1,
                last.last() == *self,
                gone.settled_all(last[0], pending@),
                MCTSEngine::credits(last, finished@),
                self.log@.len() >= old(self).log@.len(),
                self.log@.subrange(0, old(self).log@.len() as int) == old(self).log@,
                asks_batches(self.log@, old(self).log@.len() as int, n as int),
            decreases finished@.len() - k,
        {
            let ghost before = last;
            let ghost n1 = self.tree.nodes@;
            proof {
                lemma_continues_root(n0, n1);
                lemma_wrapped_steps(base, held + k, 1);
            }
            let (node, w): (usize, W) = finished[k];
            self.pass(node, Step::Credit(w));
            proof {
                lemma_continues_trans(n0, n1, self.tree.nodes@);
                last = last.push(*self);
                reveal(MCTSEngine::credits);
                assert forall|j: int| 0 <= j < last.len() - 1 implies (#[trigger] last[j]).stepped(
                    last[j + 1],
                    finished@[j].0 as int,
                    Step::Credit(finished@[j].1),
                ) by {
                    if j < before.len() - 1 {
                        assert(last[j] == before[j] && last[j + 1] == before[j + 1]);
                    }
                }
            }
            k = k + 1;
        }
        proof {
            reveal(MCTSEngine::batched);
            assert(found.last().2 == finished@);
            assert(MCTSEngine::gathers(found) && MCTSEngine::credits(last, found.last().2));
        }
    }

    /// Evaluates all pending leaves together and settles each of them. `base` is
    /// what the tally would be without the pending visits.
    #[verifier::spinoff_prover]
    fn settle_all(&mut self, pending: &Vec<PendingLeaf>, Ghost(n0): Ghost<Seq<MCTSNode<S>>>, Ghost(base): Ghost<int>)
        requires
            old(self).wf(),
            all_of(pending@, old(self).tree.nodes@, old(self).root),
            linked(n0),
            n0.len() > 0,
            n0[0].children_count > 0,
            continues(n0, old(self).tree.nodes@),
            n0.len() <= old(self).tree.nodes@.len(),
            tally(old(self).tree.nodes@) == wrapped(base + 3 * pending@.len()),
        ensures
            old(self).goes_to(*final(self)),
            continues(n0, final(self).tree.nodes@),
            tally(final(self).tree.nodes@) == wrapped(base + pending@.len()),
            old(self).settled_all(*final(self), pending@),
            final(self).log@.len() >= old(self).log@.len(),
            final(self).log@.subrange(0, old(self).log@.len() as int) == old(self).log@,
            asks_batches(final(self).log@, old(self).log@.len() as int, pending@.len() as int),
    {
        let ghost start = self.tree.nodes@;
        proof {
            lemma_continues_refl(start);
        }
        proof {
            reveal(MCTSEngine::settled_all);
            assert(self.log@.subrange(0, self.log@.len() as int) =~= self.log@);
        }
        if pending.len() == 0 {
            return;
        }
        proof {
            assert forall|i: int| 0 <= i < pending@.len() implies board_ok((#[trigger] pending@[i]).bb, 0) by {
                assert(pending@[i].of(start, self.root));
            }
        }
        let planes = self.batch_planes(pending);
        let replies: Option<(Vec<Vec<W>>, Vec<W>)> = self.ask_batch(&planes);
        let ghost told = batch_reply(replies);
        let ghost mut chain: Seq<Self> = seq![*self];
        proof {
            reveal(MCTSEngine::settles);
            assert(self.log@.subrange(0, old(self).log@.len() as int) =~= old(self).log@);
        }
        let ghost asked = self.log@;
        let mut i: usize = 0;
        while i < pending.len()
            invariant
                i <= pending@.len(),
                linked(n0),
                n0.len() > 0,
                n0[0].children_count > 0,
                start == old(self).tree.nodes@,
                old(self).goes_to(*self),
                continues(n0, self.tree.nodes@),
                n0.len() <= self.tree.nodes@.len(),
                all_of(pending@, self.tree.nodes@, self.root),
                tally(self.tree.nodes@) == wrapped(base + (3 * pending@.len() - 2 * i)),
                told == batch_reply(replies),
                self.log@ == asked,
                chain.len() == i + 1,
                chain[0] == (MCTSEngine { oracle: chain[0].oracle, log: chain[0].log, ..*old(self) }),
                chain[0].log@ == asked,
                chain.last() == *self,
                MCTSEngine::settles(chain, pending@, told),
            decreases pending@.len() - i,
        {
            let ghost before = chain;
            let ghost n1 = self.tree.nodes@;
            proof {
                lemma_continues_root(n0, n1);
                lemma_wrapped_steps(base, 3 * pending@.len() - 2 * i, -2);
                assert(pending@[i as int].of(n1, self.root));
            }
            let reply: Option<(&Vec<W>, W)> = match &replies {
                Some((policies, values)) => if i < policies.len() && i < values.len() {
                    Some((&policies[i], values[i]))
                } else {
                    None
                },
                None => None,
            };
            self.settle_leaf(&pending[i], reply);
            proof {
                lemma_continues_trans(start, n1, self.tree.nodes@);
                lemma_continues_trans(n0, n1, self.tree.nodes@);
                lemma_all_of(pending@, n1, self.tree.nodes@, self.root);
                chain = chain.push(*self);
                reveal(MCTSEngine::settles);
                assert forall|j: int| 0 <= j < chain.len() - 1 implies (#[trigger] chain[j]).settled(
                    chain[j + 1],
                    pending@[j],
                    reply_at(told, j),
                ) by {
                    if j < before.len() - 1 {
                        assert(chain[j] == before[j] && chain[j + 1] == before[j + 1]);
                    }
                }
            }
            i = i + 1;
        }
        proof {
            let shown = rows(planes@);
            assert(asked == old(self).log@.push(Event::Batch(shown, told)));
            assert(old(self).shows_all(shown, pending@));
            assert(MCTSEngine::settles(chain, pending@, told));
        }
    }

    /// Runs all simulations of a search in batches.
    #[verifier::spinoff_prover]
    fn run_batches(&mut self, batch_size: u32)
        requires
            old(self).wf(),
            old(self).tree.nodes@.len() > 0,
            old(self).tree.nodes@[0].children_count > 0,
            batch_size > 0,
        ensures
            old(self).goes_to(*final(self)),
            tally(final(self).tree.nodes@) == wrapped(tally(old(self).tree.nodes@) + old(self).simulations),
            old(self).ran_batches(*final(self), batch_size as int),
            final(self).log@.len() >= old(self).log@.len(),
            final(self).log@.subrange(0, old(self).log@.len() as int) == old(self).log@,
            asks_batches(final(self).log@, old(self).log@.len() as int, batch_size as int),
    {
        let ghost n0 = self.tree.nodes@;
        let ghost base = tally(n0) as int;
        let total: u32 = self.simulations;
        let mut remaining: u32 = total;
        let ghost mut chain: Seq<(Self, int)> = seq![(*self, total as int)];
        proof {
            lemma_continues_refl(n0);
            lemma_wrapped_steps(base, 0, 0);
            reveal(MCTSEngine::batches);
            assert(self.log@.subrange(0, self.log@.len() as int) =~= self.log@);
        }
        while remaining > 0
            invariant
                remaining <= total,
                batch_size > 0,
                n0 == old(self).tree.nodes@,
                linked(n0),
                n0.len() > 0,
                n0[0].children_count > 0,
                old(self).goes_to(*self),
                tally(self.tree.nodes@) == wrapped(base + (total - remaining)),
                chain.len() > 0,
                chain[0] == (*old(self), old(self).simulations as int),
                chain.last() == (*self, remaining as int),
                MCTSEngine::batches(chain, batch_size as int),
                self.log@.len() >= old(self).log@.len(),
                self.log@.subrange(0, old(self).log@.len() as int) == old(self).log@,
                asks_batches(self.log@, old(self).log@.len() as int, batch_size as int),
            decreases remaining,
        {
            let ghost before = chain;
            let ghost asked = self.log@;
            let n: u32 = if batch_size < remaining { batch_size } else { remaining };
            let ghost n1 = self.tree.nodes@;
            proof {
                lemma_continues_root(n0, n1);
                lemma_wrapped_steps(base, total - remaining, n as int);
            }
            self.run_batch(n);
            proof {
                lemma_continues_trans(n0, n1, self.tree.nodes@);
                chain = chain.push((*self, remaining - n));
                assert(chain.drop_last() =~= before);
                lemma_batches_step(before, chain, batch_size as int);
                lemma_asks_on(old(self).log@, asked, self.log@, n as int, batch_size as int);
            }
            remaining = remaining - n;
        }
    }

    /// For a new root whose side can act the network was asked for its planes
    /// alone, else nothing was asked.
    pub open spec fn asked_root(&self, after: Self, bb: BitBoard) -> bool {
        let n = self.log@.len() as int;
        if can_act(bb) && board_ok(bb, 1) {
            &&& after.log@.len() == n + 1
            &&& after.log@.subrange(0, n) == self.log@
            &&& after.log@[n] matches Event::Batch(planes, reply) && planes.len() == 1 && shows(
                self.appraiser,
                planes[0],
                bb,
            )
        } else {
            after.log@ == self.log@
        }
    }

    /// Starts a tree at a position and expands its root with the network's
    /// reply, or with the heuristic without one. A root without moves stays a
    /// leaf.
    #[verifier::spinoff_prover]
    fn expand_root(&mut self, bb: &BitBoard)
        requires
            old(self).wf(),
            board_ok(*bb, 0),
        ensures
            old(self).searched(*final(self), *bb),
            final(self).tree.nodes@[0].children_count > 0 ==> tally(final(self).tree.nodes@) == 0,
            can_act(*bb) && board_ok(*bb, 1) && !crowded(*bb) ==> final(self).tree.nodes@[0].children_count > 0,
            final(self).network_cache == old(self).network_cache,
            exists|fresh: Self|
                #![trigger fresh.root_opened(*final(self), *bb)]
                old(self).rooted(fresh, *bb) && fresh.root_opened(*final(self), *bb),
            old(self).asked_root(*final(self), *bb),
    {
        self.fresh_root(bb);
        let ghost fresh = *self;
        proof {
            assert(bb.wf()) by {
                reveal(board_ok);
            }
        }
        let moves = legal_moves(bb, Ghost(0));
        let room: bool = bb.move_count < u32::MAX && bb.halfmove_clock < u16::MAX;
        proof {
            assert(room == board_ok(*bb, 1)) by {
                reveal(board_ok);
            }
        }
        if moves.len() == 0 || !room {
            proof {
                assert(fresh.root_opened(*self, *bb)) by {
                    reveal(MCTSEngine::root_opened);
                }
            }
            return;
        }
        let white: bool = bb.current_player == Player::White;
        let zero: W = self.appraiser.zero();
        let one: W = self.appraiser.one();
        let planes = bb_to_planes(bb, zero, one);
        let ghost painted = planes@;
        proof {
            assert(paints(painted, *bb, zero, one));
            assert(shows(self.appraiser, painted, *bb));
        }
        let mut batch: Vec<Vec<W>> = Vec::new();
        batch.push(planes);
        let reply: Option<(Vec<Vec<W>>, Vec<W>)> = self.ask_batch(&batch);
        let ghost told = batch_reply(reply);
        let ghost mut seen: Seq<W> = Seq::empty();
        proof {
            assert(rows(batch@) =~= seq![painted]);
        }
        let known: Option<(Vec<W>, W)> = match &reply {
            Some((policies, values)) => if policies.len() > 0 && values.len() > 0 {
                let logits: Vec<W> = if white { copied(&policies[0]) } else { vflip_policy(&policies[0], zero) };
                let value: W = if white { values[0] } else { self.appraiser.negated(values[0]) };
                let shares = self.appraiser.priors(&logits, &moves);
                proof {
                    seen = logits@;
                    assert(gives_logits(self.appraiser, white, policies@[0]@, seen));
                    assert(gives_priors(self.appraiser, seen, moves@, shares@));
                }
                Some((shares, value))
            } else {
                None
            },
            None => None,
        };
        let (priors, value): (Vec<W>, W) = match known {
            Some((p, v)) => (p, v),
            None => {
                let score: i32 = self.engine.evaluate_heuristic(bb);
                (self.uniform_priors(moves.len()), self.appraiser.of_score(score))
            },
        };
        let ghost n0 = self.tree.nodes@;
        proof {
            assert(goes_on(*bb, moves@)) by {
                reveal(goes_on);
            }
        }
        self.expand_node(0, bb, &moves, &priors);
        let ghost n1 = self.tree.nodes@;
        proof {
            if n1[0].children_count > 0 {
                lemma_no_visits(n1, n0);
            }
        }
        let mut top: MCTSNode<S> = self.tree.nodes[0];
        top.visit_count = 1;
        top.stats = self.appraiser.credit(top.stats, value);
        self.tree.nodes.set(0, top);
        proof {
            assert(fresh.opens_by(*self, *bb, moves@, painted, told, seen, priors@, value, n1));
            assert(fresh.root_opened(*self, *bb)) by {
                reveal(MCTSEngine::root_opened);
            }
            assert(self.log@.subrange(0, old(self).log@.len() as int) =~= old(self).log@);
            let n2 = self.tree.nodes@;
            assert(same_shape(n1, n2));
            lemma_same_shape(n1, n2, self.root);
            if n1[0].children_count > 0 {
                lemma_root_visit(n1, n2);
            }
        }
    }

    /// Searches a position with leaves evaluated in batches by the network.
    #[verifier::spinoff_prover]
    pub fn search_batched(&mut self, bb: &BitBoard, batch_size: u32, add_noise: bool) -> (r: MCTSSearchResult<W>)
        requires
            old(self).wf(),
            bb.wf(),
            batch_size > 0,
        ensures
            old(self).searched(*final(self), *bb),
            reports(final(self).appraiser, final(self).tree.nodes@, r),
            old(self).counted(*final(self), *bb, r),
            r.best_move matches Some(m) ==> bb@.legal(m@),
            !can_act(*bb) ==> r.best_move is None,
            can_act(*bb) && board_ok(*bb, 1) && !crowded(*bb) ==> r.best_move is Some,
            old(self).reuses(*bb) ==> r.best_move is Some,
            old(self).searches_batched(*final(self), *bb, batch_size as int, add_noise),
            old(self).asked_in_order(*final(self), *bb, batch_size as int, add_noise),
    {
        proof {
            assert(board_ok(*bb, 0)) by {
                reveal(board_ok);
            }
        }
        let ghost mut fresh = *self;
        proof {
            reveal(MCTSEngine::searches_batched);
            reveal(MCTSEngine::asked_in_order);
            assert(self.log@.subrange(0, self.log@.len() as int) =~= self.log@);
        }
        if !self.can_reuse(bb) {
            self.expand_root(bb);
            proof {
                fresh = choose|fresh: Self|
                    #![trigger fresh.root_opened(*self, *bb)]
                    old(self).rooted(fresh, *bb) && fresh.root_opened(*self, *bb);
            }
        }
        let ghost open = *self;
        proof {
            lemma_root_can_act(*self);
            if !old(self).reuses(*bb) {
                assert(fresh.root_opened(open, *bb));
            }
            assert(open.log@.subrange(0, open.log@.len() as int) =~= open.log@);
        }
        if self.tree.nodes[0].children_count == 0 {
            return self.build_result();
        }
        let ghost n0 = self.tree.nodes@;
        proof {
            lemma_continues_refl(n0);
        }
        if add_noise {
            self.add_root_noise();
            proof {
                lemma_same_tally(n0, self.tree.nodes@);
            }
        }
        let ghost n1 = self.tree.nodes@;
        let ghost ready = *self;
        proof {
            lemma_continues_root(n0, n1);
            assert(open.readied(ready, add_noise));
            assert(ready.log@.subrange(0, open.log@.len() as int) =~= open.log@);
            assert(ready.log@.subrange(0, old(self).log@.len() as int) =~= old(self).log@);
        }
        if self.tree.nodes[0].children_count == 1 {
            self.settle_only_move();
            proof {
                assert(open.finishes_batched(*self, batch_size as int, add_noise));
            }
            return self.build_result();
        }
        self.run_batches(batch_size);
        proof {
            lemma_continues_root(n1, self.tree.nodes@);
            assert(self.log@.subrange(0, old(self).log@.len() as int) =~= ready.log@.subrange(
                0,
                old(self).log@.len() as int,
            ));
            assert forall|i: int| 0 <= i < ready.log@.len() implies self.log@[i] == #[trigger] ready.log@[i] by {
                assert(self.log@.subrange(0, ready.log@.len() as int)[i] == ready.log@[i]);
            }
            assert forall|i: int| 0 <= i < open.log@.len() implies ready.log@[i] == #[trigger] open.log@[i] by {
                assert(ready.log@.subrange(0, open.log@.len() as int)[i] == open.log@[i]);
            }
            assert(open.finishes_batched(*self, batch_size as int, add_noise));
            let n = old(self).log@.len() as int;
            let first = if !old(self).reuses(*bb) && can_act(*bb) && board_ok(*bb, 1) { 1int } else { 0 };
            assert(open.log@.len() == n + first);
            assert(ready.log@.len() == open.log@.len() + if add_noise { 1int } else { 0 });
            if first == 1 {
                assert(self.log@[n] == open.log@[n]);
            }
            if add_noise {
                assert(ready.log@[n + first] is Noise);
                assert(self.log@[n + first] == ready.log@[n + first]);
            }
            assert(asks_batches(self.log@, ready.log@.len() as int, batch_size as int));
        }
        self.build_result()
    }
}

#[verifier::spinoff_prover]
proof fn lemma_gathered<S: Copy, W: Copy, A: Appraiser<S, W>, O: Oracle<W>>(
    e: MCTSEngine<S, W, A, O>,
    pending: Seq<PendingLeaf>,
    finished: Seq<(usize, W)>,
    after: MCTSEngine<S, W, A, O>,
    more: Seq<PendingLeaf>,
    done: Seq<(usize, W)>,
    node: usize,
)
    requires
        e.gathered(pending, finished, after, more, done, node),
    ensures
        MCTSEngine::gathers_on((e, pending, finished), (after, more, done)),
{
    let a = (e, pending, finished);
    let b = (after, more, done);
    assert(a.0.gathered(a.1, a.2, b.0, b.1, b.2, node));
}

/// One more leaf gathered.
#[verifier::spinoff_prover]
proof fn lemma_gathers_step<S: Copy, W: Copy, A: Appraiser<S, W>, O: Oracle<W>>(
    before: Seq<(MCTSEngine<S, W, A, O>, Seq<PendingLeaf>, Seq<(usize, W)>)>,
    after: Seq<(MCTSEngine<S, W, A, O>, Seq<PendingLeaf>, Seq<(usize, W)>)>,
)
    requires
        MCTSEngine::gathers(before),
        after.len() == before.len() + 1,
        after.drop_last() == before,
        MCTSEngine::gathers_on(before.last(), after.last()),
    ensures
        MCTSEngine::gathers(after),
{
    reveal(MCTSEngine::gathers);
    assert forall|k: int| 0 <= k < before.len() implies #[trigger] after[k] == before[k] by {
        assert(after.drop_last()[k] == before[k]);
    }
    assert(before.len() > 0);
    assert forall|k: int| 0 <= k < after.len() - 1 implies MCTSEngine::gathers_on(#[trigger] after[k], after[k + 1]) by {
        assert(after[k] == before[k]);
        if k < before.len() - 1 {
            assert(after[k + 1] == before[k + 1]);
        }
    }
}

/// One more batch.
#[verifier::spinoff_prover]
proof fn lemma_batches_step<S: Copy, W: Copy, A: Appraiser<S, W>, O: Oracle<W>>(
    before: Seq<(MCTSEngine<S, W, A, O>, int)>,
    after: Seq<(MCTSEngine<S, W, A, O>, int)>,
    size: int,
)
    requires
        MCTSEngine::batches(before, size),
        after.len() == before.len() + 1,
        after.drop_last() == before,
        ({
            let (e, left) = before.last();
            let n = if size < left { size } else { left };
            left > 0 && e.batched(after.last().0, n) && after.last().1 == left - n
        }),
    ensures
        MCTSEngine::batches(after, size),
{
    reveal(MCTSEngine::batches);
    assert forall|k: int| 0 <= k < before.len() implies #[trigger] after[k] == before[k] by {
        assert(after.drop_last()[k] == before[k]);
    }
    assert forall|k: int| 0 <= k < after.len() - 1 implies ({
        let n = if size < (#[trigger] after[k]).1 { size } else { after[k].1 };
        after[k].1 > 0 && after[k].0.batched(after[k + 1].0, n) && after[k + 1].1 == after[k].1 - n
    }) by {
        assert(after[k] == before[k]);
        if k < before.len() - 1 {
            assert(after[k + 1] == before[k + 1]);
        }
    }
}

/// A log that goes on with batches.
#[verifier::spinoff_prover]
proof fn lemma_asks_on<W>(start: Seq<Event<W>>, mid: Seq<Event<W>>, end: Seq<Event<W>>, n: int, most: int)
    requires
        start.len() <= mid.len() <= end.len(),
        mid.subrange(0, start.len() as int) == start,
        end.subrange(0, mid.len() as int) == mid,
        asks_batches(mid, start.len() as int, most),
        asks_batches(end, mid.len() as int, n),
        n <= most,
    ensures
        end.subrange(0, start.len() as int) == start,
        asks_batches(end, start.len() as int, most),
{
    assert forall|i: int| 0 <= i < mid.len() implies end[i] == #[trigger] mid[i] by {
        assert(end.subrange(0, mid.len() as int)[i] == mid[i]);
    }
    assert(end.subrange(0, start.len() as int) =~= mid.subrange(0, start.len() as int));
    assert forall|i: int| start.len() <= i < end.len() implies ((#[trigger] end[i]) matches Event::Batch(planes, reply)
        && 1 <= planes.len() <= most) by {
        if i < mid.len() {
            assert(end[i] == mid[i]);
        }
    }
}

/// A visit of the root leaves the visits of its children.
#[verifier::spinoff_prover]
proof fn lemma_root_visit<S>(a: Seq<MCTSNode<S>>, b: Seq<MCTSNode<S>>)
    requires
        linked(a),
        a.len() > 0,
        a.len() == b.len(),
        b[0].children_start == a[0].children_start,
        b[0].children_count == a[0].children_count,
        forall|i: int| 0 < i < a.len() ==> (#[trigger] b[i]) == a[i],
    ensures
        tally(b) == tally(a),
{
    reveal(linked);
    assert(children_ok(a, 0));
    lemma_root_visits(a, b, a[0].children_count as nat);
}

#[verifier::spinoff_prover]
proof fn lemma_root_visits<S>(a: Seq<MCTSNode<S>>, b: Seq<MCTSNode<S>>, n: nat)
    requires
        a.len() > 0,
        a.len() == b.len(),
        children_ok(a, 0),
        n <= a[0].children_count,
        b[0].children_start == a[0].children_start,
        forall|i: int| 0 < i < a.len() ==> (#[trigger] b[i]) == a[i],
    ensures
        visits_below(b, n) == visits_below(a, n),
    decreases n,
{
    if n > 0 {
        lemma_root_visits(a, b, (n - 1) as nat);
        assert(b[a[0].children_start + n - 1] == a[a[0].children_start + n - 1]);
    }
}

} // verus!
