//! Monte Carlo tree search over the legal play from a position.
use vstd::prelude::*;
use crate::bitboard::BitBoard;
use crate::bitmove::BitMove;
use crate::board::{Move, Player};
use crate::engine::{BitBoardEngine, NoOutput};
use crate::judged::{
    adds_share, batch_reply, gives_children, gives_fresh, gives_logits, gives_mixed, gives_outcome, gives_priors,
    gives_score, gives_shares, gives_uniform, is_blank, led_to, one_reply, restated, rows, shows, sums_shares, Event,
};
use crate::leaf_cache::{remembers, LeafCache};
use crate::move_order::is_made;
use crate::node::{board_ok, can_act, is_legal};
use crate::policy::{bb_to_planes, policy_index, policy_of, vflip_policy, POLICY_SIZE};
use crate::rng::Rng;
use crate::rules::Action;
use crate::tree::{
    child_moves, children_ok, expanded_ok, fits, goes_on, is_child, lemma_grown, lemma_same_shape, lemma_turn_after,
    linked, place, same_shape, MCTSNode, Tree,
};
use crate::tree_walk::{
    classify, continues, lemma_continues_refl, lemma_continues_root, lemma_continues_trans, lemma_grown_continues,
    lemma_passed_continues, lemma_passed_tally, lemma_place_ok, lemma_same_tally, passed, tally, visits_below, wrapped,
    Appraiser, Leaf, Oracle, Step,
};

verus! {

/// A tree of this size is not searched further in a later search.
pub const REUSE_LIMIT: usize = 500_000;

/// The most nodes of a tree.
pub const NODE_LIMIT: usize = 0xffff_ffff;

/// More moves than a tree may have nodes.
pub open spec fn crowded(bb: BitBoard) -> bool {
    exists|moves: Seq<BitMove>| #[trigger] goes_on(bb, moves) && moves.len() >= NODE_LIMIT
}

/// The result of a search: the most visited move, the visits of all moves, the
/// share of the visits by policy output, and the mean worth of the root.
pub struct MCTSSearchResult<W> {
    pub best_move: Option<Move>,
    pub visits: u32,
    pub policy_target: Vec<W>,
    pub root_value: W,
}

/// Searches by Monte Carlo tree search.
pub struct MCTSEngine<S: Copy, W: Copy, A: Appraiser<S, W>, O: Oracle<W>> {
    pub simulations: u32,
    pub tree: Tree<S>,
    /// The position of the tree's root.
    pub root: BitBoard,
    /// Evaluates by hand-tuned terms, and plays by alpha-beta.
    pub engine: BitBoardEngine<NoOutput>,
    pub rng: Rng,
    pub appraiser: A,
    pub oracle: O,
    /// What the oracle has been asked, and its replies.
    pub log: Ghost<Seq<Event<W>>>,
    pub heuristic_cache: LeafCache<W>,
    pub network_cache: LeafCache<(Vec<W>, W)>,
}

impl<S: Copy, W: Copy, A: Appraiser<S, W>, O: Oracle<W>> MCTSEngine<S, W, A, O> {
    pub open spec fn wf(&self) -> bool {
        &&& self.engine.wf()
        &&& self.rng.wf()
        &&& self.heuristic_cache.wf()
        &&& self.network_cache.wf()
        &&& self.tree.wf()
        &&& self.tree.nodes@.len() > 0 ==> self.tree.of(self.root) && board_ok(self.root, 0)
    }

    /// Only the tree and what the evaluation keeps have changed, and the tree
    /// carries the old one on.
    pub open spec fn goes_to(&self, after: Self) -> bool {
        &&& after.wf()
        &&& after.simulations == self.simulations
        &&& after.root == self.root
        &&& after.engine == self.engine
        &&& after.rng == self.rng
        &&& after.appraiser == self.appraiser
        &&& continues(self.tree.nodes@, after.tree.nodes@)
        &&& self.tree.nodes@.len() <= after.tree.nodes@.len()
    }

    /// A search engine with this many simulations per search, whose random
    /// numbers start from a seed.
    pub fn new(simulations: u32, appraiser: A, oracle: O, seed: u64) -> (r: Self)
        ensures
            r.wf(),
            r.simulations == simulations,
            r.appraiser == appraiser,
            r.oracle == oracle,
            r.log@ == Seq::<Event<W>>::empty(),
            r.tree.nodes@.len() == 0,
            r.heuristic_cache@ == Map::<u64, W>::empty(),
            r.network_cache@ == Map::<u64, (Vec<W>, W)>::empty(),
    {
        MCTSEngine {
            simulations,
            tree: Tree::new(),
            root: BitBoard::new(),
            engine: BitBoardEngine::new(),
            rng: Rng::seeded(seed),
            appraiser,
            oracle,
            log: Ghost(Seq::empty()),
            heuristic_cache: LeafCache::new(),
            network_cache: LeafCache::new(),
        }
    }

    /// The worth of a finished game for white.
    pub(crate) fn outcome_value(&self, outcome: Option<Player>) -> (r: W)
        ensures
            gives_outcome(self.appraiser, outcome, r),
    {
        match outcome {
            Some(Player::White) => self.appraiser.one(),
            Some(Player::Black) => {
                let w: W = self.appraiser.one();
                self.appraiser.negated(w)
            },
            None => self.appraiser.zero(),
        }
    }

    /// Equal shares for `n` moves.
    pub(crate) fn uniform_priors(&self, n: usize) -> (r: Vec<W>)
        ensures
            gives_uniform(self.appraiser, n as nat, r@),
    {
        let share: W = self.appraiser.uniform(n);
        let mut r: Vec<W> = Vec::with_capacity(n);
        let mut i: usize = 0;
        while i < n
            invariant
                i <= n,
                r@ =~= Seq::new(i as nat, |k: int| share),
            decreases n - i,
        {
            r.push(share);
            i = i + 1;
        }
        assert(call_ensures(A::uniform, (&self.appraiser, n), share));
        r
    }

    /// Gives a leaf its legal moves as children, as far as the tree may grow.
    pub(crate) fn expand_node(&mut self, node: usize, bb: &BitBoard, moves: &Vec<BitMove>, priors: &Vec<W>)
        requires
            old(self).wf(),
            node < old(self).tree.nodes@.len(),
            old(self).tree.nodes@[node as int].children_count == 0,
            !old(self).tree.nodes@[node as int].is_terminal,
            *bb == place(old(self).tree.nodes@, old(self).root, node as int),
            goes_on(*bb, moves@),
            moves@.len() > 0,
        ensures
            old(self).goes_to(*final(self)),
            old(self).tree.nodes@.len() + moves@.len() <= NODE_LIMIT ==> final(self).tree.nodes@[node as int].children_count
                == moves@.len(),
            old(self).tree.nodes@.len() + moves@.len() > NODE_LIMIT ==> final(self).tree.nodes@ == old(self).tree.nodes@,
            forall|i: int|
                0 <= i < old(self).tree.nodes@.len() ==> (#[trigger] final(self).tree.nodes@[i]).visit_count == old(self).tree.nodes@[i].visit_count,
            forall|i: int|
                old(self).tree.nodes@.len() <= i < final(self).tree.nodes@.len() ==> (#[trigger] final(self).tree.nodes@[i]).visit_count == 0,
            node == 0 && final(self).tree.nodes@[0].children_count > 0 ==> final(self).tree.nodes@[0].children_start == old(self).tree.nodes@.len(),
            *final(self) == (MCTSEngine { tree: final(self).tree, ..*old(self) }),
            gives_children(
                old(self).appraiser,
                old(self).tree.nodes@,
                final(self).tree.nodes@,
                node as int,
                *bb,
                moves@,
                priors@,
                NODE_LIMIT as int,
            ),
    {
        let ghost before = self.tree.nodes@;
        proof {
            lemma_continues_refl(before);
            assert forall|k: int| 0 <= k < moves@.len() implies (#[trigger] moves@[k]).valid() by {
                lemma_turn_after(*bb, moves@, k);
            }
        }
        if self.tree.nodes.len() > NODE_LIMIT || moves.len() > NODE_LIMIT - self.tree.nodes.len() {
            return;
        }
        let mut stats: Vec<S> = Vec::with_capacity(moves.len());
        let share: W = self.appraiser.uniform(moves.len());
        let mut i: usize = 0;
        while i < moves.len()
            invariant
                i <= moves@.len(),
                stats@.len() == i,
                forall|k: int|
                    0 <= k < i ==> call_ensures(
                        A::fresh,
                        (
                            &self.appraiser,
                            if k < priors@.len() {
                                priors@[k]
                            } else {
                                share
                            },
                        ),
                        #[trigger] stats@[k],
                    ),
            decreases moves@.len() - i,
        {
            let prior: W = if i < priors.len() { priors[i] } else { share };
            stats.push(self.appraiser.fresh(prior));
            i = i + 1;
        }
        let white: bool = bb.current_player == Player::White;
        proof {
            assert(call_ensures(A::uniform, (&self.appraiser, moves@.len() as usize), share));
            assert(gives_fresh(self.appraiser, moves@.len(), priors@, stats@));
            lemma_grown(before, node as int, moves@, stats@, white, self.root);
            lemma_grown_continues(before, node as int, moves@, stats@, white);
        }
        self.tree.expand(node, moves, &stats, white);
    }

    /// Asks the network about one position.
    pub(crate) fn ask_one(&mut self, planes: &Vec<W>) -> (r: Option<(Vec<W>, W)>)
        requires
            old(self).wf(),
        ensures
            final(self).wf(),
            *final(self) == (MCTSEngine { oracle: final(self).oracle, log: final(self).log, ..*old(self) }),
            final(self).log@ == old(self).log@.push(Event::One(planes@, one_reply(r))),
    {
        let r = self.oracle.evaluate_one(planes);
        self.log = Ghost(self.log@.push(Event::One(planes@, one_reply(r))));
        r
    }

    /// Asks the network about several positions.
    pub(crate) fn ask_batch(&mut self, planes: &Vec<Vec<W>>) -> (r: Option<(Vec<Vec<W>>, Vec<W>)>)
        requires
            old(self).wf(),
        ensures
            final(self).wf(),
            *final(self) == (MCTSEngine { oracle: final(self).oracle, log: final(self).log, ..*old(self) }),
            final(self).log@ == old(self).log@.push(Event::Batch(rows(planes@), batch_reply(r))),
    {
        let r = self.oracle.evaluate_batch(planes);
        self.log = Ghost(self.log@.push(Event::Batch(rows(planes@), batch_reply(r))));
        r
    }

    /// Draws noise for `n` moves.
    fn draw_noise(&mut self, n: usize) -> (r: Vec<W>)
        requires
            old(self).wf(),
        ensures
            final(self).wf(),
            *final(self) == (MCTSEngine { oracle: final(self).oracle, log: final(self).log, ..*old(self) }),
            final(self).log@ == old(self).log@.push(Event::Noise(r@)),
    {
        let r = self.oracle.noise(n);
        self.log = Ghost(self.log@.push(Event::Noise(r@)));
        r
    }

    /// What an open position was appraised at. The network is asked for its
    /// planes: the reply's worth is taken as it is, and its outputs relative to
    /// white give the priors; without a reply the heuristic's worth and equal
    /// priors stand in. Without a network the heuristic's worth is taken from
    /// the cache, or put there.
    pub open spec fn appraised(
        &self,
        after: Self,
        bb: BitBoard,
        moves: Seq<BitMove>,
        network: bool,
        value: W,
        priors: Seq<W>,
    ) -> bool {
        let a = self.appraiser;
        if network {
            &&& after == (MCTSEngine { oracle: after.oracle, log: after.log, ..*self })
            &&& exists|planes: Seq<W>, reply: Option<(Seq<W>, W)>|
                #![trigger self.log@.push(Event::One(planes, reply))]
                {
                    &&& shows(a, planes, bb)
                    &&& after.log@ == self.log@.push(Event::One(planes, reply))
                    &&& match reply {
                        Some((raw, v)) => value == v && exists|logits: Seq<W>|
                            #![trigger gives_priors(a, logits, moves, priors)]
                            gives_logits(a, bb.current_player == Player::White, raw, logits) && gives_priors(
                                a,
                                logits,
                                moves,
                                priors,
                            ),
                        None => gives_score(a, self.engine.weights, bb, value) && gives_uniform(a, moves.len(), priors),
                    }
                }
        } else {
            &&& after == (MCTSEngine { heuristic_cache: after.heuristic_cache, ..*self })
            &&& gives_uniform(a, moves.len(), priors)
            &&& if self.heuristic_cache@.dom().contains(bb.hash) {
                value == self.heuristic_cache@[bb.hash] && after.heuristic_cache@ == self.heuristic_cache@
            } else {
                gives_score(a, self.engine.weights, bb, value) && after.heuristic_cache@ == remembers(
                    self.heuristic_cache@,
                    bb.hash,
                    value,
                )
            }
        }
    }

    /// The worth for white and the priors of an open position: by the network,
    /// or by the cached heuristic with equal priors. Without a reply from the
    /// network the heuristic stands in. The network's worth is not turned for
    /// black here; a batch search turns it.
    fn appraise(&mut self, bb: &BitBoard, moves: &Vec<BitMove>, network: bool) -> (r: (W, Vec<W>))
        requires
            old(self).wf(),
            bb.wf(),
        ensures
            final(self).wf(),
            final(self).tree == old(self).tree,
            old(self).goes_to(*final(self)),
            final(self).network_cache == old(self).network_cache,
            network ==> final(self).heuristic_cache == old(self).heuristic_cache,
            !network ==> final(self).heuristic_cache@.dom().contains(bb.hash),
            !network && old(self).heuristic_cache@.dom().contains(bb.hash) ==> r.0 == old(self).heuristic_cache@[bb.hash]
                && final(self).heuristic_cache@ == old(self).heuristic_cache@,
            !network ==> final(self).heuristic_cache@[bb.hash] == r.0,
            old(self).appraised(*final(self), *bb, moves@, network, r.0, r.1@),
    {
        proof {
            lemma_continues_refl(self.tree.nodes@);
        }
        if network {
            let zero: W = self.appraiser.zero();
            let one: W = self.appraiser.one();
            let planes = bb_to_planes(bb, zero, one);
            proof {
                assert(shows(self.appraiser, planes@, *bb));
            }
            match self.ask_one(&planes) {
                Some((raw, value)) => {
                    let ghost shown = raw@;
                    let logits: Vec<W> = if bb.current_player == Player::White {
                        raw
                    } else {
                        vflip_policy(&raw, zero)
                    };
                    let priors: Vec<W> = self.appraiser.priors(&logits, moves);
                    proof {
                        assert(gives_logits(self.appraiser, bb.current_player == Player::White, shown, logits@));
                        assert(gives_priors(self.appraiser, logits@, moves@, priors@));
                    }
                    (value, priors)
                },
                None => {
                    let score: i32 = self.engine.evaluate_heuristic(bb);
                    (self.appraiser.of_score(score), self.uniform_priors(moves.len()))
                },
            }
        } else {
            let cached: Option<W> = match self.heuristic_cache.get(bb.hash) {
                Some(w) => Some(*w),
                None => None,
            };
            let value: W = match cached {
                Some(w) => w,
                None => {
                    let score: i32 = self.engine.evaluate_heuristic(bb);
                    let w: W = self.appraiser.of_score(score);
                    self.heuristic_cache.put(bb.hash, w);
                    w
                },
            };
            (value, self.uniform_priors(moves.len()))
        }
    }

    /// Marks a leaf at which the game is over.
    pub(crate) fn finish_leaf(&mut self, node: usize, outcome: Option<Player>)
        requires
            old(self).wf(),
            node < old(self).tree.nodes@.len(),
            old(self).tree.nodes@[node as int].children_count == 0,
        ensures
            old(self).goes_to(*final(self)),
            final(self).tree.nodes@ == old(self).tree.nodes@.update(
                node as int,
                MCTSNode { is_terminal: true, outcome, ..old(self).tree.nodes@[node as int] },
            ),
            *final(self) == (MCTSEngine { tree: final(self).tree, ..*old(self) }),
    {
        proof {
            assert(self.tree.of(self.root));
        }
        self.tree.mark_terminal(node, outcome);
        proof {
            reveal(continues);
        }
    }

    /// A leaf whose game goes on was appraised and then expanded.
    pub open spec fn opens(
        &self,
        after: Self,
        node: int,
        bb: BitBoard,
        network: bool,
        value: W,
        asked: Self,
        moves: Seq<BitMove>,
        priors: Seq<W>,
    ) -> bool {
        &&& goes_on(bb, moves)
        &&& moves.len() > 0
        &&& self.appraised(asked, bb, moves, network, value, priors)
        &&& after == (MCTSEngine { tree: after.tree, ..asked })
        &&& gives_children(
            self.appraiser,
            self.tree.nodes@,
            after.tree.nodes@,
            node,
            bb,
            moves,
            priors,
            NODE_LIMIT as int,
        )
    }

    /// What a leaf that was not visited before is worth, and what becomes of it:
    /// a finished game is marked and worth its outcome, any other is appraised
    /// and expanded.
    pub open spec fn assessed(&self, after: Self, node: int, bb: BitBoard, network: bool, value: W) -> bool {
        if bb@.winner() is Some || !can_act(bb) || !board_ok(bb, 1) {
            &&& after == (MCTSEngine { tree: after.tree, ..*self })
            &&& after.tree.nodes@ == self.tree.nodes@.update(
                node,
                MCTSNode { is_terminal: true, outcome: bb@.winner(), ..self.tree.nodes@[node] },
            )
            &&& gives_outcome(self.appraiser, bb@.winner(), value)
        } else {
            exists|asked: Self, moves: Seq<BitMove>, priors: Seq<W>|
                #![trigger self.opens(after, node, bb, network, value, asked, moves, priors)]
                self.opens(after, node, bb, network, value, asked, moves, priors)
        }
    }

    /// Evaluates a leaf and expands it; the worth for white.
    fn evaluate_and_expand(&mut self, node: usize, bb: &BitBoard, network: bool) -> (r: W)
        requires
            old(self).wf(),
            node < old(self).tree.nodes@.len(),
            old(self).tree.nodes@[node as int].children_count == 0,
            !old(self).tree.nodes@[node as int].is_terminal,
            *bb == place(old(self).tree.nodes@, old(self).root, node as int),
        ensures
            old(self).goes_to(*final(self)),
            forall|i: int|
                0 <= i < old(self).tree.nodes@.len() ==> (#[trigger] final(self).tree.nodes@[i]).visit_count == old(self).tree.nodes@[i].visit_count,
            forall|i: int|
                old(self).tree.nodes@.len() <= i < final(self).tree.nodes@.len() ==> (#[trigger] final(self).tree.nodes@[i]).visit_count == 0,
            node == 0 && final(self).tree.nodes@[0].children_count > 0 ==> final(self).tree.nodes@[0].children_start == old(self).tree.nodes@.len(),
            bb@.winner() is Some || !can_act(*bb) ==> final(self).tree.nodes@[node as int].is_terminal && final(self).tree.nodes@[node as int].children_count == 0 && final(self).tree.nodes@[node as int].outcome == bb@.winner(),
            bb@.winner() is None && can_act(*bb) && board_ok(*bb, 1) && !crowded(*bb) && old(self).tree.nodes@.len() == 1 ==> final(self).tree.nodes@[node as int].children_count > 0,
            old(self).assessed(*final(self), node as int, *bb, network, r),
    {
        proof {
            lemma_place_ok(self.tree.nodes@, self.root, node as int);
        }
        match classify(bb) {
            Leaf::Over(outcome) => {
                self.finish_leaf(node, outcome);
                self.outcome_value(outcome)
            },
            Leaf::Open(moves) => {
                proof {
                    assert(bb.wf()) by {
                        reveal(board_ok);
                    }
                }
                let ghost start = *self;
                proof {
                    assert(board_ok(*bb, 1)) by {
                        reveal(goes_on);
                    }
                }
                let (value, priors): (W, Vec<W>) = self.appraise(bb, &moves, network);
                let ghost asked = *self;
                proof {
                    assert(goes_on(*bb, moves@));
                }
                self.expand_node(node, bb, &moves, &priors);
                proof {
                    assert(start.opens(*self, node as int, *bb, network, value, asked, moves@, priors@));
                }
                value
            },
        }
    }
}

/// The child of the root with the most visits, the first of equals.
pub open spec fn is_favourite<S>(nodes: Seq<MCTSNode<S>>, c: int) -> bool {
    &&& is_child(nodes, 0, c)
    &&& forall|k: int| #[trigger] is_child(nodes, 0, k) ==> nodes[k].visit_count <= nodes[c].visit_count
    &&& forall|k: int| #[trigger] is_child(nodes, 0, k) && k < c ==> nodes[k].visit_count < nodes[c].visit_count
}

/// What a search says of its tree: the most visited move, the visits, their
/// shares by policy output, and the mean worth of the root.
pub open spec fn reports<S, W, A: Appraiser<S, W>>(a: A, nodes: Seq<MCTSNode<S>>, r: MCTSSearchResult<W>) -> bool {
    &&& r.policy_target@.len() == 1332
    &&& gives_shares(a, nodes, r.visits, r.policy_target@)
    &&& call_ensures(A::mean, (&a, nodes[0].stats, nodes[0].visit_count), r.root_value)
    &&& nodes[0].children_count == 0 ==> r.best_move is None && r.visits == 0
    &&& nodes[0].children_count > 0 ==> {
        &&& r.visits == tally(nodes)
        &&& r.best_move matches Some(m) && exists|c: int|
            #![trigger is_favourite(nodes, c)]
            is_favourite(nodes, c) && m.valid() && m@ == nodes[c].bitmove@
    }
}

impl<S: Copy, W: Copy, A: Appraiser<S, W>, O: Oracle<W>> MCTSEngine<S, W, A, O> {
    /// A leaf is visited: the most promising one, whose worth, known or newly
    /// assessed, is credited on the way up.
    pub open spec fn visits(&self, after: Self, network: bool, node: int, mid: Self, value: W) -> bool {
        let nodes = self.tree.nodes@;
        &&& 0 <= node < nodes.len()
        &&& nodes[node].children_count == 0
        &&& led_to(self.appraiser, nodes, node)
        &&& if nodes[node].is_terminal {
            mid == *self && gives_outcome(self.appraiser, nodes[node].outcome, value)
        } else {
            self.assessed(mid, node, place(nodes, self.root, node), network, value)
        }
        &&& after == (MCTSEngine { tree: after.tree, ..mid })
        &&& passed(mid.tree.nodes@, after.tree.nodes@, node, 1)
        &&& restated(self.appraiser, mid.tree.nodes@, after.tree.nodes@, node, Step::Credit(value))
    }

    /// One simulation was run.
    #[verifier::opaque]
    pub open spec fn simulated(&self, after: Self, network: bool) -> bool {
        exists|node: int, mid: Self, value: W| #[trigger] self.visits(after, network, node, mid, value)
    }

    /// One simulation: down to a leaf, an evaluation, and back up.
    fn simulate(&mut self, network: bool)
        requires
            old(self).wf(),
            old(self).tree.nodes@.len() > 0,
            old(self).tree.nodes@[0].children_count > 0,
        ensures
            old(self).goes_to(*final(self)),
            tally(final(self).tree.nodes@) == wrapped(tally(old(self).tree.nodes@) + 1),
            old(self).simulated(*final(self), network),
    {
        let ghost n0 = self.tree.nodes@;
        let root: BitBoard = self.root;
        let (node, sim): (usize, BitBoard) = self.tree.descend(&root, &self.appraiser);
        proof {
            lemma_continues_refl(n0);
        }
        let value: W = if self.tree.nodes[node].is_terminal {
            self.outcome_value(self.tree.nodes[node].outcome)
        } else {
            self.evaluate_and_expand(node, &sim, network)
        };
        let ghost n1 = self.tree.nodes@;
        let ghost mid = *self;
        proof {
            assert(continues(n0, n1));
            lemma_same_tally(n0, n1);
            assert(node < n1.len()) by {
                reveal(continues);
            }
        }
        self.tree.pass_up(node, Step::Credit(value), &self.appraiser);
        proof {
            assert(old(self).visits(*self, network, node as int, mid, value));
            lemma_passed_continues(n1, self.tree.nodes@, node as int, 1);
            lemma_passed_tally(n1, self.tree.nodes@, node as int, 1);
            lemma_continues_trans(n0, n1, self.tree.nodes@);
            reveal(MCTSEngine::simulated);
        }
    }

    /// Noise was drawn and mixed into the priors of the root's children.
    pub open spec fn noised(&self, after: Self) -> bool {
        if self.tree.nodes@[0].children_count == 0 {
            after == *self
        } else {
            &&& after == (MCTSEngine { tree: after.tree, oracle: after.oracle, log: after.log, ..*self })
            &&& exists|noise: Seq<W>|
                #![trigger self.log@.push(Event::Noise(noise))]
                after.log@ == self.log@.push(Event::Noise(noise)) && gives_mixed(
                    self.appraiser,
                    self.tree.nodes@,
                    after.tree.nodes@,
                    noise,
                )
        }
    }

    /// Mixes noise into the priors of the root's children.
    pub(crate) fn add_root_noise(&mut self)
        requires
            old(self).wf(),
            old(self).tree.nodes@.len() > 0,
        ensures
            old(self).goes_to(*final(self)),
            same_shape(old(self).tree.nodes@, final(self).tree.nodes@),
            old(self).noised(*final(self)),
            forall|i: int|
                0 <= i < old(self).tree.nodes@.len() ==> (#[trigger] final(self).tree.nodes@[i]).visit_count == old(
                    self).tree.nodes@[i].visit_count,
    {
        let ghost n0 = self.tree.nodes@;
        let total: usize = self.tree.nodes.len();
        let start: usize = self.tree.nodes[0].children_start;
        let count: usize = self.tree.nodes[0].children_count;
        proof {
            reveal(linked);
            assert(children_ok(n0, 0));
            lemma_continues_refl(n0);
        }
        if count == 0 {
            return;
        }
        let noise: Vec<W> = self.draw_noise(count);
        let mut i: usize = 0;
        while i < count
            invariant
                i <= count,
                total == n0.len(),
                start + count <= total,
                same_shape(n0, self.tree.nodes@),
                forall|k: int| 0 <= k < n0.len() ==> (#[trigger] self.tree.nodes@[k]).visit_count == n0[k].visit_count,
                *self == (MCTSEngine { tree: self.tree, oracle: self.oracle, log: self.log, ..*old(self) }),
                self.log@ == old(self).log@.push(Event::Noise(noise@)),
                forall|k: int|
                    0 <= k < n0.len() ==> if start <= k < start + i && k - start < noise@.len() {
                        call_ensures(
                            A::mix,
                            (&self.appraiser, n0[k].stats, noise@[k - start]),
                            (#[trigger] self.tree.nodes@[k]).stats,
                        )
                    } else {
                        self.tree.nodes@[k].stats == n0[k].stats
                    },
            decreases count - i,
        {
            let ghost before = self.tree.nodes@;
            let mut child: MCTSNode<S> = self.tree.nodes[start + i];
            proof {
                assert(before[start + i].stats == n0[start + i].stats);
            }
            if i < noise.len() {
                child.stats = self.appraiser.mix(child.stats, noise[i]);
            }
            self.tree.nodes.set(start + i, child);
            proof {
                assert forall|k: int| 0 <= k < n0.len() implies self.tree.nodes@[k] == (MCTSNode {
                    visit_count: self.tree.nodes@[k].visit_count,
                    stats: self.tree.nodes@[k].stats,
                    ..#[trigger] n0[k]
                }) && self.tree.nodes@[k].visit_count == n0[k].visit_count by {
                    assert(before[k] == (MCTSNode {
                        visit_count: before[k].visit_count,
                        stats: before[k].stats,
                        ..n0[k]
                    }));
                    assert(before[k].visit_count == n0[k].visit_count);
                    if k != start + i {
                        assert(self.tree.nodes@[k] == before[k]);
                    }
                }
                assert forall|k: int| 0 <= k < n0.len() implies if start <= k < start + (i + 1) && k - start
                    < noise@.len() {
                    call_ensures(
                        A::mix,
                        (&self.appraiser, n0[k].stats, noise@[k - start]),
                        (#[trigger] self.tree.nodes@[k]).stats,
                    )
                } else {
                    self.tree.nodes@[k].stats == n0[k].stats
                } by {
                    if k != start + i {
                        assert(self.tree.nodes@[k] == before[k]);
                    }
                }
            }
            i = i + 1;
        }
        proof {
            assert(gives_mixed(self.appraiser, n0, self.tree.nodes@, noise@)) by {
                assert forall|k: int| 0 <= k < n0.len() implies (#[trigger] self.tree.nodes@[k]) == (MCTSNode {
                    stats: self.tree.nodes@[k].stats,
                    ..n0[k]
                }) by {
                    let x = n0[k];
                }
            }
            lemma_same_shape(n0, self.tree.nodes@, self.root);
            reveal(continues);
            assert forall|k: int| 0 <= k < n0.len() implies (#[trigger] self.tree.nodes@[k]).parent == n0[k].parent
                && self.tree.nodes@[k].bitmove == n0[k].bitmove && self.tree.nodes@[k].children_start
                == n0[k].children_start && self.tree.nodes@[k].children_count == n0[k].children_count by {
                let x = n0[k];
            }
        }
    }

    /// The child of the root with the most visits.
    pub(crate) fn favourite(&self) -> (r: usize)
        requires
            self.wf(),
            self.tree.nodes@.len() > 0,
            self.tree.nodes@[0].children_count > 0,
        ensures
            is_favourite(self.tree.nodes@, r as int),
            r < self.tree.nodes@.len(),
            is_legal(self.root, self.tree.nodes@[r as int].bitmove),
            self.tree.nodes@[r as int].bitmove.valid(),
    {
        let ghost nodes = self.tree.nodes@;
        let total: usize = self.tree.nodes.len();
        let start: usize = self.tree.nodes[0].children_start;
        let count: usize = self.tree.nodes[0].children_count;
        proof {
            reveal(linked);
            assert(children_ok(nodes, 0));
        }
        let mut best: usize = start;
        let mut i: usize = 1;
        while i < count
            invariant
                1 <= i <= count,
                nodes == self.tree.nodes@,
                total == nodes.len(),
                start + count <= total,
                start <= best < start + i,
                forall|k: int| start <= k < start + i ==> (#[trigger] nodes[k]).visit_count <= nodes[best as int].visit_count,
                forall|k: int| start <= k < best ==> (#[trigger] nodes[k]).visit_count < nodes[best as int].visit_count,
            decreases count - i,
        {
            if self.tree.nodes[start + i].visit_count > self.tree.nodes[best].visit_count {
                best = start + i;
            }
            i = i + 1;
        }
        proof {
            assert(expanded_ok(nodes, self.root, 0)) by {
                reveal(fits);
            }
            assert(crate::tree::parent_ok(nodes, 0));
            assert(place(nodes, self.root, 0) == self.root);
            let moves = child_moves(nodes, 0);
            assert(moves[best - start] == nodes[best as int].bitmove);
            lemma_turn_after(self.root, moves, best - start);
        }
        best
    }

    /// The result of a search from its tree.
    pub(crate) fn build_result(&self) -> (r: MCTSSearchResult<W>)
        requires
            self.wf(),
            self.tree.nodes@.len() > 0,
        ensures
            reports(self.appraiser, self.tree.nodes@, r),
            r.best_move matches Some(m) ==> self.root@.legal(m@),
    {
        let ghost nodes = self.tree.nodes@;
        let zero: W = self.appraiser.zero();
        let mut policy_target: Vec<W> = Vec::with_capacity(POLICY_SIZE);
        let mut i: usize = 0;
        while i < POLICY_SIZE
            invariant
                i <= 1332,
                policy_target@ =~= Seq::new(i as nat, |k: int| zero),
            decreases 1332 - i,
        {
            policy_target.push(zero);
            i = i + 1;
        }
        let ghost blank = policy_target@;
        proof {
            assert(is_blank(self.appraiser, blank));
        }
        let stats: S = self.tree.nodes[0].stats;
        let root_value: W = self.appraiser.mean(stats, self.tree.nodes[0].visit_count);
        let start: usize = self.tree.nodes[0].children_start;
        let count: usize = self.tree.nodes[0].children_count;
        if count == 0 {
            proof {
                reveal(gives_shares);
            }
            return MCTSSearchResult { best_move: None, visits: 0, policy_target, root_value };
        }
        let total: usize = self.tree.nodes.len();
        proof {
            reveal(linked);
            assert(children_ok(nodes, 0));
            assert(crate::tree::parent_ok(nodes, 0));
            assert(expanded_ok(nodes, self.root, 0)) by {
                reveal(fits);
            }
            assert(place(nodes, self.root, 0) == self.root);
        }
        let mut visits: u32 = 0;
        let mut j: usize = 0;
        while j < count
            invariant
                j <= count,
                nodes == self.tree.nodes@,
                total == nodes.len(),
                start == nodes[0].children_start,
                start + count <= total,
                visits == wrapped(visits_below(nodes, j as nat)),
            decreases count - j,
        {
            let v: u32 = self.tree.nodes[start + j].visit_count;
            proof {
                lemma_wrapped_add(visits_below(nodes, j as nat), visits, v);
            }
            visits = visits.wrapping_add(v);
            j = j + 1;
        }
        proof {
            reveal(gives_shares);
        }
        if visits > 0 {
            let mut k: usize = 0;
            let ghost mut trail: Seq<Seq<W>> = seq![blank];
            proof {
                reveal(sums_shares);
            }
            while k < count
                invariant
                    k <= count,
                    nodes == self.tree.nodes@,
                    total == nodes.len(),
                    start == nodes[0].children_start,
                    count == nodes[0].children_count,
                    start + count <= total,
                    goes_on(self.root, child_moves(nodes, 0)),
                    policy_target@.len() == 1332,
                    trail.len() == k + 1,
                    trail.last() == policy_target@,
                    sums_shares(self.appraiser, nodes, visits, trail),
                decreases count - k,
            {
                let ghost before = trail;
                let ghost was = policy_target@;
                proof {
                    assert(child_moves(nodes, 0)[k as int] == nodes[start + k].bitmove);
                    lemma_turn_after(self.root, child_moves(nodes, 0), k as int);
                }
                let idx: usize = policy_index(&self.tree.nodes[start + k].bitmove) as usize;
                let share: W = self.appraiser.add_share(
                    policy_target[idx],
                    self.tree.nodes[start + k].visit_count,
                    visits,
                );
                policy_target.set(idx, share);
                proof {
                    reveal(sums_shares);
                    trail = trail.push(policy_target@);
                    let child = nodes[start + k];
                    assert(call_ensures(
                        A::add_share,
                        (&self.appraiser, was[policy_of(child.bitmove@)], child.visit_count, visits),
                        share,
                    ));
                    assert(adds_share(self.appraiser, child, visits, was, policy_target@));
                    assert forall|i: int| 0 <= i < trail.len() - 1 implies adds_share(
                        self.appraiser,
                        nodes[nodes[0].children_start + i],
                        visits,
                        #[trigger] trail[i],
                        trail[i + 1],
                    ) by {
                        if i < before.len() - 1 {
                            assert(trail[i] == before[i] && trail[i + 1] == before[i + 1]);
                        }
                    }
                }
                k = k + 1;
            }
            proof {
                assert(sums_shares(self.appraiser, nodes, visits, trail));
            }
        }
        let best: usize = self.favourite();
        let best_move: Move = self.tree.nodes[best].bitmove.to_move();
        proof {
            reveal(is_legal);
            assert(is_favourite(nodes, best as int));
        }
        MCTSSearchResult { best_move: Some(best_move), visits, policy_target, root_value }
    }
}

proof fn lemma_wrapped_add(sum: int, a: u32, v: u32)
    requires
        a == wrapped(sum),
    ensures
        a.wrapping_add(v) == wrapped(sum + v),
{
    let m = 0x1_0000_0000int;
    vstd::arithmetic::div_mod::lemma_add_mod_noop_right(v as int, sum, m);
    assert(v + sum == sum + v);
    assert((sum + v) % m == (a + v) % m);
}

impl<S: Copy, W: Copy, A: Appraiser<S, W>, O: Oracle<W>> MCTSEngine<S, W, A, O> {
    /// The tree of an earlier search serves a search from this position.
    pub open spec fn reuses(&self, bb: BitBoard) -> bool {
        &&& self.tree.nodes@.len() > 0
        &&& self.tree.nodes@[0].children_count > 0
        &&& self.tree.nodes@.len() < REUSE_LIMIT
        &&& self.root == bb
    }

    /// The visits that a search from this position starts with.
    pub open spec fn visits_before(&self, bb: BitBoard) -> int {
        if self.reuses(bb) {
            tally(self.tree.nodes@) as int
        } else {
            0
        }
    }

    /// What a search leaves alone.
    pub open spec fn searched(&self, after: Self, bb: BitBoard) -> bool {
        &&& after.wf()
        &&& after.simulations == self.simulations
        &&& after.engine == self.engine
        &&& after.rng == self.rng
        &&& after.appraiser == self.appraiser
        &&& after.root == bb
        &&& after.tree.nodes@.len() > 0
    }

    /// The visits a result shows: one for an only move, else one more for every
    /// simulation.
    pub open spec fn counted(&self, after: Self, bb: BitBoard, r: MCTSSearchResult<W>) -> bool {
        &&& after.tree.nodes@[0].children_count == 1 ==> r.visits == 1
        &&& after.tree.nodes@[0].children_count > 1 ==> r.visits == wrapped(self.visits_before(bb) + self.simulations)
    }

    pub(crate) fn can_reuse(&self, bb: &BitBoard) -> (r: bool)
        ensures
            r == self.reuses(*bb),
    {
        self.tree.nodes.len() > 0 && self.tree.nodes[0].children_count > 0 && self.tree.nodes.len() < REUSE_LIMIT
            && self.root == *bb
    }

    /// A new tree: a root that keeps the whole prior, and nothing else.
    pub open spec fn rooted(&self, after: Self, bb: BitBoard) -> bool {
        &&& after == (MCTSEngine { tree: after.tree, root: bb, ..*self })
        &&& after.tree.nodes@.len() == 1
        &&& exists|one: W|
            #![trigger call_ensures(A::one, (&self.appraiser,), one)]
            call_ensures(A::one, (&self.appraiser,), one) && call_ensures(
                A::fresh,
                (&self.appraiser, one),
                after.tree.nodes@[0].stats,
            )
        &&& after.tree.nodes@[0] == MCTSNode::spec_leaf(
            None,
            after.tree.nodes@[0].bitmove,
            after.tree.nodes@[0].stats,
            bb.current_player == Player::White,
        )
        &&& is_made(after.tree.nodes@[0].bitmove, Action::Place { to: 0 })
    }

    /// Starts a tree of one node.
    pub(crate) fn fresh_root(&mut self, bb: &BitBoard)
        requires
            old(self).wf(),
            board_ok(*bb, 0),
        ensures
            old(self).searched(*final(self), *bb),
            final(self).tree.nodes@.len() == 1,
            final(self).tree.nodes@[0].children_count == 0,
            !final(self).tree.nodes@[0].is_terminal,
            final(self).tree.nodes@[0].visit_count == 0,
            place(final(self).tree.nodes@, *bb, 0) == *bb,
            *final(self) == (MCTSEngine { tree: final(self).tree, root: *bb, ..*old(self) }),
            old(self).rooted(*final(self), *bb),
    {
        let one: W = self.appraiser.one();
        let stats: S = self.appraiser.fresh(one);
        let dummy = BitMove::new_placement(0, None);
        self.tree = Tree::root(dummy, stats, bb.current_player == Player::White);
        self.root = *bb;
        proof {
            assert(self.tree.of(*bb));
        }
    }

    /// The only move was counted as visited once, and nothing else changed.
    pub open spec fn settled_only(&self, after: Self) -> bool {
        let c = self.tree.nodes@[0].children_start as int;
        &&& after == (MCTSEngine { tree: after.tree, ..*self })
        &&& after.tree.nodes@ == self.tree.nodes@.update(c, MCTSNode { visit_count: 1, ..self.tree.nodes@[c] })
    }

    /// An only move needs no search: it counts as visited once.
    pub(crate) fn settle_only_move(&mut self)
        requires
            old(self).wf(),
            old(self).tree.nodes@.len() > 0,
            old(self).tree.nodes@[0].children_count == 1,
        ensures
            old(self).goes_to(*final(self)),
            final(self).tree.nodes@[0].children_count == 1,
            tally(final(self).tree.nodes@) == 1,
            old(self).settled_only(*final(self)),
    {
        let ghost n0 = self.tree.nodes@;
        proof {
            reveal(linked);
            assert(children_ok(n0, 0));
        }
        let c: usize = self.tree.nodes[0].children_start;
        let mut child: MCTSNode<S> = self.tree.nodes[c];
        child.visit_count = 1;
        self.tree.nodes.set(c, child);
        proof {
            let n1 = self.tree.nodes@;
            assert(same_shape(n0, n1));
            lemma_same_shape(n0, n1, self.root);
            reveal(continues);
            assert(n1[0].children_start == c && n1[0].children_count == 1);
            assert(visits_below(n1, 0) == 0);
            assert(visits_below(n1, 1) == visits_below(n1, 0) + n1[n1[0].children_start + 1 - 1].visit_count);
        }
    }

    /// Each engine of the chain is the one before it after one simulation.
    #[verifier::opaque]
    pub open spec fn simulates(chain: Seq<Self>, network: bool) -> bool {
        forall|k: int| 0 <= k < chain.len() - 1 ==> (#[trigger] chain[k]).simulated(chain[k + 1], network)
    }

    /// All simulations of a search were run.
    pub open spec fn ran(&self, after: Self, network: bool) -> bool {
        exists|chain: Seq<Self>| #[trigger]
            Self::simulates(chain, network) && chain.len() == self.simulations + 1 && chain[0] == *self && chain.last()
                == after
    }

    /// Noise was mixed in if it was asked for.
    pub open spec fn readied(&self, ready: Self, add_noise: bool) -> bool {
        if add_noise {
            self.noised(ready)
        } else {
            ready == *self
        }
    }

    /// What a search does with an expanded root: noise if it is asked for, then
    /// nothing but a count for an only move, or else all simulations.
    pub open spec fn finishes(&self, after: Self, network: bool, add_noise: bool) -> bool {
        if self.tree.nodes@[0].children_count == 0 {
            after == *self
        } else {
            exists|ready: Self| #[trigger]
                self.readied(ready, add_noise) && if self.tree.nodes@[0].children_count == 1 {
                    ready.settled_only(after)
                } else {
                    ready.ran(after, network)
                }
        }
    }

    /// What a search does: a new root, unless the tree serves already, is
    /// assessed, and the search goes on from it.
    #[verifier::opaque]
    pub open spec fn searches(&self, after: Self, bb: BitBoard, network: bool, add_noise: bool) -> bool {
        if self.reuses(bb) {
            self.finishes(after, network, add_noise)
        } else {
            exists|fresh: Self, open: Self, value: W|
                #![trigger fresh.assessed(open, 0, bb, network, value)]
                self.rooted(fresh, bb) && fresh.assessed(open, 0, bb, network, value) && open.finishes(
                    after,
                    network,
                    add_noise,
                )
        }
    }

    /// Runs the simulations of a search one by one.
    fn run_simulations(&mut self, network: bool)
        requires
            old(self).wf(),
            old(self).tree.nodes@.len() > 0,
            old(self).tree.nodes@[0].children_count > 0,
        ensures
            old(self).goes_to(*final(self)),
            tally(final(self).tree.nodes@) == wrapped(tally(old(self).tree.nodes@) + old(self).simulations),
            old(self).ran(*final(self), network),
    {
        let ghost n0 = self.tree.nodes@;
        let ghost mut chain: Seq<Self> = seq![*self];
        proof {
            lemma_continues_refl(n0);
            lemma_wrapped_steps(tally(n0) as int, 0, 0);
            reveal(MCTSEngine::simulates);
        }
        let n: u32 = self.simulations;
        let mut i: u32 = 0;
        while i < n
            invariant
                i <= n,
                n == old(self).simulations,
                n0 == old(self).tree.nodes@,
                linked(n0),
                n0.len() > 0,
                n0[0].children_count > 0,
                old(self).goes_to(*self),
                tally(self.tree.nodes@) == wrapped(tally(n0) + i),
                chain.len() == i + 1,
                chain[0] == *old(self),
                chain.last() == *self,
                MCTSEngine::simulates(chain, network),
            decreases n - i,
        {
            let ghost before = chain;
            let ghost n1 = self.tree.nodes@;
            proof {
                lemma_continues_root(n0, n1);
                lemma_wrapped_steps(tally(n0) as int, i as int, 1);
            }
            self.simulate(network);
            proof {
                lemma_continues_trans(n0, n1, self.tree.nodes@);
                reveal(MCTSEngine::simulates);
                chain = chain.push(*self);
                assert forall|k: int| 0 <= k < chain.len() - 1 implies (#[trigger] chain[k]).simulated(
                    chain[k + 1],
                    network,
                ) by {
                    if k < before.len() - 1 {
                        assert(chain[k] == before[k] && chain[k + 1] == before[k + 1]);
                    }
                }
            }
            i = i + 1;
        }
    }

    /// Searches a position one leaf at a time, by the network or by the
    /// heuristic.
    pub fn search(&mut self, bb: &BitBoard, network: bool, add_noise: bool) -> (r: MCTSSearchResult<W>)
        requires
            old(self).wf(),
            bb.wf(),
        ensures
            old(self).searched(*final(self), *bb),
            reports(final(self).appraiser, final(self).tree.nodes@, r),
            old(self).counted(*final(self), *bb, r),
            r.best_move matches Some(m) ==> bb@.legal(m@),
            bb@.winner() is Some && !old(self).reuses(*bb) ==> r.best_move is None,
            !can_act(*bb) ==> r.best_move is None,
            bb@.winner() is None && can_act(*bb) && board_ok(*bb, 1) && !crowded(*bb) ==> r.best_move is Some,
            old(self).reuses(*bb) ==> r.best_move is Some,
            old(self).searches(*final(self), *bb, network, add_noise),
    {
        proof {
            assert(board_ok(*bb, 0)) by {
                reveal(board_ok);
            }
        }
        let ghost mut fresh = *self;
        let ghost mut worth: Option<W> = None;
        if !self.can_reuse(bb) {
            self.fresh_root(bb);
            proof {
                fresh = *self;
            }
            let ghost n0 = self.tree.nodes@;
            let value: W = self.evaluate_and_expand(0, bb, network);
            proof {
                worth = Some(value);
            }
            proof {
                if self.tree.nodes@[0].children_count > 0 {
                    lemma_no_visits(self.tree.nodes@, n0);
                }
            }
        }
        proof {
            lemma_root_can_act(*self);
        }
        let ghost open = *self;
        let r = self.finish_search(network, add_noise);
        proof {
            reveal(MCTSEngine::searches);
            if !old(self).reuses(*bb) {
                assert(fresh.assessed(open, 0, *bb, network, worth->0));
            }
        }
        r
    }

    /// Searches from a root that is expanded, or cannot be.
    fn finish_search(&mut self, network: bool, add_noise: bool) -> (r: MCTSSearchResult<W>)
        requires
            old(self).wf(),
            old(self).tree.nodes@.len() > 0,
        ensures
            old(self).searched(*final(self), old(self).root),
            reports(final(self).appraiser, final(self).tree.nodes@, r),
            old(self).tree.nodes@[0].children_count == 0 ==> r.best_move is None,
            old(self).tree.nodes@[0].children_count > 0 ==> r.best_move is Some && final(
                self).tree.nodes@[0].children_count == old(self).tree.nodes@[0].children_count,
            final(self).tree.nodes@[0].children_count == 1 ==> r.visits == 1,
            final(self).tree.nodes@[0].children_count > 1 ==> r.visits == wrapped(
                tally(old(self).tree.nodes@) + old(self).simulations,
            ),
            r.best_move matches Some(m) ==> old(self).root@.legal(m@),
            old(self).finishes(*final(self), network, add_noise),
    {
        if self.tree.nodes[0].children_count == 0 {
            return self.build_result();
        }
        let ghost n0 = self.tree.nodes@;
        proof {
            lemma_continues_refl(n0);
        }
        if add_noise {
            self.add_root_noise();
            proof {
                lemma_same_tally(n0, self.tree.nodes@);
            }
        }
        let ghost n1 = self.tree.nodes@;
        let ghost ready = *self;
        proof {
            lemma_continues_root(n0, n1);
            assert(old(self).readied(ready, add_noise));
        }
        if self.tree.nodes[0].children_count == 1 {
            self.settle_only_move();
            return self.build_result();
        }
        self.run_simulations(network);
        proof {
            lemma_continues_root(n1, self.tree.nodes@);
        }
        self.build_result()
    }
}

/// A freshly expanded root has unvisited children.
pub(crate) proof fn lemma_no_visits<S>(nodes: Seq<MCTSNode<S>>, before: Seq<MCTSNode<S>>)
    requires
        linked(nodes),
        nodes.len() > 0,
        nodes[0].children_count > 0,
        nodes[0].children_start == before.len(),
        forall|i: int| before.len() <= i < nodes.len() ==> (#[trigger] nodes[i]).visit_count == 0,
    ensures
        tally(nodes) == 0,
{
    reveal(linked);
    assert(children_ok(nodes, 0));
    lemma_zero_visits(nodes, nodes[0].children_count as nat);
}

proof fn lemma_zero_visits<S>(nodes: Seq<MCTSNode<S>>, n: nat)
    requires
        nodes.len() > 0,
        n <= nodes[0].children_count,
        forall|i: int|
            nodes[0].children_start <= i < nodes[0].children_start + nodes[0].children_count ==> (
            #[trigger] nodes[i]).visit_count == 0,
    ensures
        visits_below(nodes, n) == 0,
    decreases n,
{
    if n > 0 {
        lemma_zero_visits(nodes, (n - 1) as nat);
        assert(nodes[nodes[0].children_start + n - 1].visit_count == 0);
    }
}

pub(crate) proof fn lemma_wrapped_steps(base: int, i: int, d: int)
    ensures
        wrapped(wrapped(base + i) + d) == wrapped(base + (i + d)),
        0 <= base < 0x1_0000_0000 ==> wrapped(base) == base,
{
    let m = 0x1_0000_0000int;
    vstd::arithmetic::div_mod::lemma_add_mod_noop_right(d, base + i, m);
    assert(d + (base + i) == base + (i + d));
    assert(d + (base + i) % m == (base + i) % m + d);
}

/// An expanded root is a position in which the side to move can act.
pub(crate) proof fn lemma_root_can_act<S: Copy, W: Copy, A: Appraiser<S, W>, O: Oracle<W>>(e: MCTSEngine<S, W, A, O>)
    requires
        e.wf(),
        e.tree.nodes@.len() > 0,
    ensures
        e.tree.nodes@[0].children_count > 0 ==> can_act(e.root) && board_ok(e.root, 1),
{
    let nodes = e.tree.nodes@;
    if nodes[0].children_count > 0 {
        reveal(linked);
        assert(crate::tree::parent_ok(nodes, 0));
        assert(expanded_ok(nodes, e.root, 0)) by {
            reveal(fits);
        }
        assert(place(nodes, e.root, 0) == e.root);
        let moves = child_moves(nodes, 0);
        lemma_turn_after(e.root, moves, 0);
        reveal(is_legal);
        reveal(can_act);
        reveal(goes_on);
        assert(e.root@.legal(moves[0]@));
    }
}

} // verus!
