//! Whole games: self-play for training data, and matches against alpha-beta.
use vstd::prelude::*;
use crate::bitboard::BitBoard;
use crate::bitmove::BitMove;
use crate::board::Player;
use crate::deepening::searchable;
use crate::engine::{BitBoardEngine, NoOutput};
use crate::heuristic::heuristic_of;
use crate::judged::{gives_logits, gives_outcome, gives_score, gives_turned, shows};
use crate::mcts::{crowded, is_favourite, reports, MCTSEngine, MCTSSearchResult};
use crate::node::{board_ok, can_act, is_legal, keyed, lemma_keyed_child};
use crate::policy::{bb_to_planes, paints, policy_index, policy_of, vflip_policy, POLICY_SIZE};
use crate::rng::{fraction_of, xorshift};
use crate::rules::initial_state;
use crate::subtree::alike;
use crate::tree::{child_moves, children_ok, expanded_ok, fits, goes_on, lemma_turn_after, linked, place, Tree};
use crate::tree_walk::{classify, Appraiser, Leaf, Oracle};
use crate::turns::{
    drawn_line, engine_line, forgot, gives_up, keeps_below, lemma_drawn_more, lemma_engine_line_more, lemma_engine_line_start,
    lemma_match_line_more, lemma_match_line_start, lemma_notes_full_more, lemma_notes_full_start, lemma_tree_line_more,
    lemma_tree_line_start, match_answer, match_line, notes_full, rolled, tree_line, EngineTurn, MatchRules, MatchTurn,
    TreeRules, TreeTurn,
};

verus! {

/// A position for training: what the network sees, the share of visits by
/// policy output, the game's outcome and the search's worth, all from the side
/// to move.
pub struct TrainingExample<W> {
    pub planes: Vec<W>,
    pub policy_target: Vec<W>,
    pub value_target: W,
    pub search_score: W,
}

/// A whole game: its training examples, the winner if any, and the turns
/// played after the opening.
pub struct SelfPlayResult<W> {
    pub examples: Vec<TrainingExample<W>>,
    pub winner: Option<Player>,
    pub move_count: u32,
}

/// The games of a match, counted for the tree search.
#[derive(Clone, Copy, PartialEq, Eq, Debug)]
pub struct EvalMatchResult {
    pub wins: u32,
    pub draws: u32,
    pub losses: u32,
}

/// The position after a line of moves.
pub open spec fn end_of(a: BitBoard, line: Seq<BitMove>) -> BitBoard
    decreases line.len(),
{
    if line.len() == 0 {
        a
    } else {
        end_of(a, line.drop_last()).played(line.last())
    }
}

/// Every move of the line is legal where it is played.
pub open spec fn legal_line(a: BitBoard, line: Seq<BitMove>) -> bool
    decreases line.len(),
{
    line.len() > 0 ==> legal_line(a, line.drop_last()) && is_legal(end_of(a, line.drop_last()), line.last())
}

/// The turns of a line; a pail placement is only a part of one.
pub open spec fn turns_of(line: Seq<BitMove>) -> int
    decreases line.len(),
{
    if line.len() == 0 {
        0
    } else {
        turns_of(line.drop_last()) + if line.last().pail_only() {
            0int
        } else {
            1
        }
    }
}

/// The start of a game.
pub open spec fn is_start(b: BitBoard) -> bool {
    b@ == initial_state() && b.wf()
}

/// A line with one more move.
#[verifier::spinoff_prover]
proof fn lemma_longer(a: BitBoard, line: Seq<BitMove>, m: BitMove)
    requires
        legal_line(a, line),
        is_legal(end_of(a, line), m),
    ensures
        legal_line(a, line.push(m)),
        end_of(a, line.push(m)) == end_of(a, line).played(m),
        turns_of(line.push(m)) == turns_of(line) + if m.pail_only() {
            0int
        } else {
            1
        },
        forall|k: int| 0 <= k <= line.len() ==> #[trigger] line.push(m).subrange(0, k) == line.subrange(0, k),
{
    let longer = line.push(m);
    assert(longer.drop_last() =~= line);
    assert forall|k: int| 0 <= k <= line.len() implies #[trigger] longer.subrange(0, k) == line.subrange(0, k) by {
        assert(longer.subrange(0, k) =~= line.subrange(0, k));
    }
}

/// Legal play keeps a position sound: it stays a game position that carries its
/// own hash, its turns are counted, and no pail or barrel is lost.
#[verifier::spinoff_prover]
pub proof fn law_play_stays_sound(a: BitBoard, line: Seq<BitMove>)
    requires
        keyed(a),
        legal_line(a, line),
        a.move_count + line.len() < u32::MAX,
        a.halfmove_clock + line.len() < u16::MAX,
    ensures
        keyed(end_of(a, line)),
        end_of(a, line).move_count == a.move_count + turns_of(line),
        end_of(a, line).halfmove_clock <= a.halfmove_clock + line.len(),
        0 <= turns_of(line) <= line.len(),
    decreases line.len(),
{
    if line.len() > 0 {
        let front = line.drop_last();
        let b = end_of(a, front);
        let m = line.last();
        law_play_stays_sound(a, front);
        assert(board_ok(b, 1)) by {
            reveal(keyed);
            reveal(board_ok);
        }
        lemma_keyed_child(b, m, 1);
        reveal(keyed);
        reveal(is_legal);
        crate::retrograde::lemma_listed_playable(b, m);
        b.lemma_played(m);
        let c = b.played(m);
        assert(c.move_count as int == c@.move_count && c.halfmove_clock as int == c@.clock);
    }
}

/// A pail placement is owed a barrel move; a barrel move ends the turn.
#[verifier::spinoff_prover]
proof fn lemma_turn_parts(b: BitBoard, m: BitMove)
    requires
        is_legal(b, m),
    ensures
        m.pail_only() ==> !b.awaiting_barrel && b.played(m).awaiting_barrel,
        !m.pail_only() ==> !b.played(m).awaiting_barrel,
        m.valid(),
{
    reveal(BitBoard::played);
    reveal(is_legal);
}

/// A position that a game goes on from does not stand still.
#[verifier::spinoff_prover]
proof fn lemma_goes_on_stands(b: BitBoard, moves: Seq<BitMove>)
    requires
        goes_on(b, moves),
        b@.winner() is None,
        can_act(b),
    ensures
        !stands_still(b),
{
    reveal(goes_on);
}

/// The game is over, or cannot go on.
pub open spec fn stands_still(b: BitBoard) -> bool {
    b@.winner() is Some || !can_act(b) || !board_ok(b, 1)
}

/// A line of legal moves from the start of a game to `b`: `turns` whole turns,
/// or fewer if the game stands still.
pub open spec fn opens_with(start: BitBoard, line: Seq<BitMove>, b: BitBoard, turns: int) -> bool {
    &&& is_start(start)
    &&& legal_line(start, line)
    &&& end_of(start, line) == b
    &&& 0 <= turns_of(line) <= turns
    &&& turns_of(line) == turns || stands_still(b)
}

/// Plays a legal move of a list.
#[verifier::spinoff_prover]
fn play(bb: &mut BitBoard, mv: &BitMove, Ghost(moves): Ghost<Seq<BitMove>>) -> (r: bool)
    requires
        goes_on(*old(bb), moves),
        is_legal(*old(bb), *mv),
    ensures
        *final(bb) == old(bb).played(*mv),
        board_ok(*final(bb), 0),
        r == !mv.pail_only(),
{
    proof {
        crate::tree_walk::lemma_child_ok(*bb, *mv, moves);
        lemma_turn_parts(*bb, *mv);
    }
    let _ = bb.make_move(mv);
    !mv.is_pail_placement()
}

impl<S: Copy, W: Copy, A: Appraiser<S, W>, O: Oracle<W>> MCTSEngine<S, W, A, O> {
    /// A game begun with some turns of random moves.
    #[verifier::spinoff_prover]
    pub fn random_start(&mut self, turns: usize) -> (r: BitBoard)
        requires
            old(self).wf(),
        ensures
            *final(self) == (MCTSEngine { rng: final(self).rng, ..*old(self) }),
            final(self).wf(),
            board_ok(r, 0),
            exists|start: BitBoard, line: Seq<BitMove>| #[trigger]
                opens_with(start, line, r, turns as int) && drawn_line(old(self).rng.state, start, line)
                    && final(self).rng.state == rolled(old(self).rng.state, line.len()),
    {
        let mut bb = BitBoard::new();
        let ghost start = bb;
        let ghost mut line: Seq<BitMove> = Seq::empty();
        let mut played: usize = 0;
        let mut over: bool = false;
        proof {
            assert(board_ok(bb, 0)) by {
                reveal(board_ok);
            }
        }
        while !over && played < turns
            invariant
                *self == (MCTSEngine { rng: self.rng, ..*old(self) }),
                self.wf(),
                is_start(start),
                legal_line(start, line),
                end_of(start, line) == bb,
                turns_of(line) == played,
                drawn_line(old(self).rng.state, start, line),
                self.rng.state == rolled(old(self).rng.state, line.len()),
                board_ok(bb, 0),
                played <= turns,
                over ==> stands_still(bb),
            decreases
                    if over {
                        0int
                    } else {
                        2 + 2 * (turns - played) - if bb.awaiting_barrel {
                            1int
                        } else {
                            0
                        }
                    },
        {
            match classify(&bb) {
                Leaf::Over(_) => {
                    over = true;
                },
                Leaf::Open(moves) => {
                    let i: usize = self.rng.next_usize(moves.len());
                    let mv: BitMove = moves[i];
                    proof {
                        lemma_turn_after(bb, moves@, i as int);
                        lemma_longer(start, line, mv);
                        lemma_drawn_more(old(self).rng.state, start, line, moves@, mv);
                        lemma_turn_parts(bb, mv);
                        line = line.push(mv);
                    }
                    if play(&mut bb, &mv, Ghost(moves@)) {
                        played = played + 1;
                    }
                },
            }
        }
        proof {
            assert(opens_with(start, line, bb, turns as int));
        }
        bb
    }

    /// `w` is the worth for white of a game that ended here.
    pub open spec fn gives_end(&self, bb: BitBoard, w: W) -> bool {
        match bb@.winner() {
            Some(p) => gives_outcome(self.appraiser, Some(p), w),
            None => gives_score(self.appraiser, self.engine.weights, bb, w),
        }
    }

    /// The worth for white of how a game ended, and its winner. A game without a
    /// winner is worth its heuristic evaluation.
    #[verifier::spinoff_prover]
    pub fn determine_outcome(&self, bb: &BitBoard) -> (r: (W, Option<Player>))
        requires
            self.wf(),
            bb.wf(),
        ensures
            r.1 == bb@.winner(),
            self.gives_end(*bb, r.0),
    {
        match bb.check_winner() {
            Some(p) => (self.outcome_value(Some(p)), Some(p)),
            None => {
                let score: i32 = self.engine.evaluate_heuristic(bb);
                (self.appraiser.of_score(score), None)
            },
        }
    }

    /// Forgets the evaluations of earlier positions.
    #[verifier::spinoff_prover]
    pub fn clear_caches(&mut self)
        requires
            old(self).wf(),
        ensures
            final(self).wf(),
            final(self).heuristic_cache@ == Map::<u64, W>::empty(),
            final(self).network_cache@ == Map::<u64, (Vec<W>, W)>::empty(),
            final(self).simulations == old(self).simulations,
            final(self).tree == old(self).tree,
            final(self).root == old(self).root,
            final(self).engine == old(self).engine,
            final(self).rng == old(self).rng,
            final(self).appraiser == old(self).appraiser,
            final(self).oracle == old(self).oracle,
            final(self).log == old(self).log,
    {
        self.heuristic_cache.clear();
        self.network_cache.clear();
    }

    /// Forgets the tree.
    #[verifier::spinoff_prover]
    pub fn clear_tree(&mut self)
        requires
            old(self).wf(),
        ensures
            *final(self) == (MCTSEngine { tree: final(self).tree, ..*old(self) }),
            final(self).wf(),
            final(self).tree.nodes@.len() == 0,
    {
        self.tree = Tree::new();
    }

    /// The most visited move of the root.
    #[verifier::spinoff_prover]
    pub fn most_visited_bitmove(&self) -> (r: BitMove)
        requires
            self.wf(),
            self.tree.nodes@.len() > 0,
            self.tree.nodes@[0].children_count > 0,
        ensures
            is_legal(self.root, r),
            exists|c: int|
                #![trigger is_favourite(self.tree.nodes@, c)]
                is_favourite(self.tree.nodes@, c) && r == self.tree.nodes@[c].bitmove,
    {
        let c: usize = self.favourite();
        self.tree.nodes[c].bitmove
    }

    /// The child that was drawn: the first without any visit, else the
    /// appraiser's pick by the visits and a fraction, or the last if there is no
    /// such child.
    pub open spec fn samples(&self, after: Self, temperature: W, k: int) -> bool {
        let nodes = self.tree.nodes@;
        let visits = Seq::new(
            nodes[0].children_count as nat,
            |i: int| nodes[nodes[0].children_start + i].visit_count,
        );
        &&& 0 <= k < visits.len()
        &&& if forall|i: int| 0 <= i < visits.len() ==> visits[i] == 0 {
            k == 0 && after.rng == self.rng
        } else {
            exists|v: Vec<u32>, pick: usize|
                #![trigger call_ensures(A::pick_visits, (&self.appraiser, &v, temperature, fraction_of(after.rng.state)), pick)]
                {
                    &&& v@ == visits
                    &&& after.rng.state == xorshift(self.rng.state)
                    &&& call_ensures(
                        A::pick_visits,
                        (&self.appraiser, &v, temperature, fraction_of(after.rng.state)),
                        pick,
                    )
                    &&& k == if pick < visits.len() {
                        pick as int
                    } else {
                        visits.len() - 1
                    }
                }
        }
    }

    /// A move of the root drawn by its visits at a temperature, or the first
    /// without any visit.
    #[verifier::spinoff_prover]
    pub fn sample_bitmove_by_temp(&mut self, temperature: W) -> (r: Option<BitMove>)
        requires
            old(self).wf(),
            old(self).tree.nodes@.len() > 0,
        ensures
            final(self).wf(),
            *final(self) == (MCTSEngine { rng: final(self).rng, ..*old(self) }),
            r is Some <==> old(self).tree.nodes@[0].children_count > 0,
            r matches Some(m) ==> is_legal(old(self).root, m) && exists|k: int| #[trigger]
                old(self).samples(*final(self), temperature, k) && m == old(self).tree.nodes@[old(
                    self).tree.nodes@[0].children_start + k].bitmove,
    {
        let ghost nodes = self.tree.nodes@;
        let total: usize = self.tree.nodes.len();
        let start: usize = self.tree.nodes[0].children_start;
        let count: usize = self.tree.nodes[0].children_count;
        if count == 0 {
            return None;
        }
        proof {
            reveal(linked);
            assert(children_ok(nodes, 0));
            assert(crate::tree::parent_ok(nodes, 0));
            assert(expanded_ok(nodes, self.root, 0)) by {
                reveal(fits);
            }
            assert(place(nodes, self.root, 0) == self.root);
        }
        let mut visits: Vec<u32> = Vec::with_capacity(count);
        let mut any: bool = false;
        let mut i: usize = 0;
        while i < count
            invariant
                i <= count,
                nodes == self.tree.nodes@,
                total == nodes.len(),
                start + count <= total,
                visits@.len() == i,
                forall|k: int| 0 <= k < i ==> #[trigger] visits@[k] == nodes[start + k].visit_count,
                any <==> exists|k: int| 0 <= k < i && #[trigger] visits@[k] > 0,
            decreases count - i,
        {
            let ghost seen = visits@;
            let v: u32 = self.tree.nodes[start + i].visit_count;
            let was: bool = any;
            any = any || v > 0;
            visits.push(v);
            proof {
                assert(forall|k: int| 0 <= k < i ==> #[trigger] visits@[k] == seen[k]);
                if was {
                    let k = choose|k: int| 0 <= k < i && #[trigger] seen[k] > 0;
                    assert(visits@[k] > 0);
                } else if v > 0 {
                    assert(visits@[i as int] > 0);
                }
            }
            i = i + 1;
        }
        let mut k: usize = 0;
        let ghost all = Seq::new(nodes[0].children_count as nat, |i: int| nodes[nodes[0].children_start + i].visit_count);
        assert(visits@ =~= all);
        if any {
            let fraction: u64 = self.rng.next_fraction();
            let pick: usize = self.appraiser.pick_visits(&visits, temperature, fraction);
            k = if pick < count { pick } else { count - 1 };
            proof {
                let j = choose|j: int| 0 <= j < count && #[trigger] visits@[j] > 0;
                assert(all[j] != 0);
                assert(call_ensures(
                    A::pick_visits,
                    (&self.appraiser, &visits, temperature, fraction_of(self.rng.state)),
                    pick,
                ));
            }
        } else {
            assert forall|j: int| 0 <= j < all.len() implies all[j] == 0 by {
                assert(visits@[j] == 0);
            }
        }
        proof {
            assert(old(self).samples(*self, temperature, k as int));
            assert(child_moves(nodes, 0)[k as int] == nodes[start + k].bitmove);
            lemma_turn_after(self.root, child_moves(nodes, 0), k as int);
        }
        Some(self.tree.nodes[start + k].bitmove)
    }

    /// The move that was drawn: evenly where no move has a share, else the
    /// appraiser's pick by the shares and a fraction, or the last if there is no
    /// such move.
    pub open spec fn selects(
        &self,
        after: Self,
        moves: Seq<BitMove>,
        policy: Seq<W>,
        temperature: W,
        k: int,
    ) -> bool {
        &&& after.rng.state == xorshift(self.rng.state)
        &&& exists|shares: Vec<W>, mass: bool|
            #![trigger call_ensures(A::has_mass, (&self.appraiser, &shares, temperature), mass)]
            {
                &&& self.shares_of(moves, policy, shares@)
                &&& call_ensures(A::has_mass, (&self.appraiser, &shares, temperature), mass)
                &&& if mass {
                    exists|pick: usize| #[trigger]
                        call_ensures(
                            A::pick_share,
                            (&self.appraiser, &shares, temperature, fraction_of(after.rng.state)),
                            pick,
                        ) && k == if pick < moves.len() {
                            pick as int
                        } else {
                            moves.len() - 1
                        }
                } else {
                    k == after.rng.state as int % moves.len() as int
                }
            }
    }

    /// The shares of moves in a policy; a missing one is zero.
    pub open spec fn shares_of(&self, moves: Seq<BitMove>, policy: Seq<W>, shares: Seq<W>) -> bool {
        &&& shares.len() == moves.len()
        &&& exists|zero: W| #[trigger]
            call_ensures(A::zero, (&self.appraiser,), zero) && forall|i: int|
                0 <= i < moves.len() ==> #[trigger] shares[i] == if policy_of(moves[i]@) < policy.len() {
                    policy[policy_of(moves[i]@)]
                } else {
                    zero
                }
    }

    /// A move drawn by its share in a policy at a temperature, or evenly where
    /// no move has a share.
    #[verifier::spinoff_prover]
    pub fn select_move_by_policy(&mut self, moves: &Vec<BitMove>, policy_target: &Vec<W>, temperature: W) -> (r: usize)
        requires
            old(self).wf(),
            moves@.len() > 0,
            forall|i: int| 0 <= i < moves@.len() ==> (#[trigger] moves@[i]).valid(),
        ensures
            final(self).wf(),
            *final(self) == (MCTSEngine { rng: final(self).rng, ..*old(self) }),
            r < moves@.len(),
            old(self).selects(*final(self), moves@, policy_target@, temperature, r as int),
    {
        let zero: W = self.appraiser.zero();
        let mut shares: Vec<W> = Vec::with_capacity(moves.len());
        let mut i: usize = 0;
        while i < moves.len()
            invariant
                i <= moves@.len(),
                shares@.len() == i,
                forall|k: int| 0 <= k < moves@.len() ==> (#[trigger] moves@[k]).valid(),
                forall|k: int|
                    0 <= k < i ==> #[trigger] shares@[k] == if policy_of(moves@[k]@) < policy_target@.len() {
                        policy_target@[policy_of(moves@[k]@)]
                    } else {
                        zero
                    },
            decreases moves@.len() - i,
        {
            let idx: usize = policy_index(&moves[i]) as usize;
            shares.push(if idx < policy_target.len() { policy_target[idx] } else { zero });
            i = i + 1;
        }
        proof {
            assert(call_ensures(A::zero, (&self.appraiser,), zero));
            assert(self.shares_of(moves@, policy_target@, shares@));
        }
        let mass: bool = self.appraiser.has_mass(&shares, temperature);
        if !mass {
            let i: usize = self.rng.next_usize(moves.len());
            proof {
                assert(call_ensures(A::has_mass, (&self.appraiser, &shares, temperature), mass));
            }
            return i;
        }
        let fraction: u64 = self.rng.next_fraction();
        let k: usize = self.appraiser.pick_share(&shares, temperature, fraction);
        proof {
            assert(call_ensures(A::has_mass, (&self.appraiser, &shares, temperature), mass));
            assert(call_ensures(
                A::pick_share,
                (&self.appraiser, &shares, temperature, fraction_of(self.rng.state)),
                k,
            ));
        }
        if k < moves.len() {
            k
        } else {
            moves.len() - 1
        }
    }
}

/// What is recorded of a position until the game's outcome is known.
pub struct Record<W> {
    pub planes: Vec<W>,
    pub policy: Vec<W>,
    pub is_white: bool,
    pub score: W,
}

/// A position of a game that training learns from: after how many moves it
/// stood, the policy, and the worth for white.
pub struct Note<W> {
    pub at: int,
    pub policy: Seq<W>,
    pub worth: W,
}

/// The position after some moves of a line.
pub open spec fn stood(start: BitBoard, line: Seq<BitMove>, at: int) -> BitBoard {
    end_of(start, line.subrange(0, at))
}

/// A record holds a noted position.
pub open spec fn is_record<S, W, A: Appraiser<S, W>>(a: A, b: BitBoard, policy: Seq<W>, worth: W, r: Record<W>) -> bool {
    let white = b.current_player == Player::White;
    &&& shows(a, r.planes@, b)
    &&& r.policy@ == policy
    &&& r.is_white == white
    &&& gives_turned(a, white, worth, r.score)
}

/// An example shows a noted position from its side to move: the planes, the
/// policy, the outcome of the game, and the worth.
pub open spec fn is_example<S, W, A: Appraiser<S, W>>(
    a: A,
    b: BitBoard,
    note: Note<W>,
    outcome: W,
    e: TrainingExample<W>,
) -> bool {
    let white = b.current_player == Player::White;
    &&& shows(a, e.planes@, b)
    &&& gives_logits(a, white, note.policy, e.policy_target@)
    &&& gives_turned(a, white, outcome, e.value_target)
    &&& gives_turned(a, white, note.worth, e.search_score)
}

/// The records hold the noted positions, in the order of play.
#[verifier::opaque]
pub open spec fn are_records<S, W, A: Appraiser<S, W>>(
    a: A,
    start: BitBoard,
    line: Seq<BitMove>,
    notes: Seq<Note<W>>,
    records: Seq<Record<W>>,
) -> bool {
    &&& records.len() == notes.len()
    &&& forall|i: int|
        0 <= i < records.len() ==> is_record(
            a,
            stood(start, line, notes[i].at),
            notes[i].policy,
            notes[i].worth,
            #[trigger] records[i],
        )
}

/// The examples show the noted positions, in the order of play.
#[verifier::opaque]
pub open spec fn are_examples<S, W, A: Appraiser<S, W>>(
    a: A,
    start: BitBoard,
    line: Seq<BitMove>,
    notes: Seq<Note<W>>,
    outcome: W,
    examples: Seq<TrainingExample<W>>,
) -> bool {
    &&& examples.len() == notes.len()
    &&& forall|i: int|
        0 <= i < examples.len() ==> is_example(
            a,
            stood(start, line, notes[i].at),
            notes[i],
            outcome,
            #[trigger] examples[i],
        )
}

/// The notes are of positions after the opening, one after another; with `all`
/// of every one of them.
#[verifier::opaque]
pub open spec fn in_order<W>(notes: Seq<Note<W>>, first: int, len: int, all: bool) -> bool {
    &&& forall|i: int| 0 <= i < notes.len() ==> first <= (#[trigger] notes[i]).at < len
    &&& forall|i: int, j: int| 0 <= i < j < notes.len() ==> (#[trigger] notes[i]).at < (#[trigger] notes[j]).at
    &&& all ==> notes.len() == len - first && forall|i: int|
        0 <= i < notes.len() ==> (#[trigger] notes[i]).at == first + i
}

/// A longer line leaves records as they are.
#[verifier::spinoff_prover]
proof fn lemma_records_longer<S, W, A: Appraiser<S, W>>(
    a: A,
    start: BitBoard,
    line: Seq<BitMove>,
    m: BitMove,
    notes: Seq<Note<W>>,
    records: Seq<Record<W>>,
)
    requires
        are_records(a, start, line, notes, records),
        forall|i: int| 0 <= i < notes.len() ==> 0 <= (#[trigger] notes[i]).at <= line.len(),
    ensures
        are_records(a, start, line.push(m), notes, records),
{
    reveal(are_records);
    assert forall|i: int| 0 <= i < records.len() implies is_record(
        a,
        stood(start, line.push(m), notes[i].at),
        notes[i].policy,
        notes[i].worth,
        #[trigger] records[i],
    ) by {
        let at = notes[i].at;
        assert(line.push(m).subrange(0, at) =~= line.subrange(0, at));
    }
}

/// One more record, of the position at the end of the line.
#[verifier::spinoff_prover]
proof fn lemma_records_more<S, W, A: Appraiser<S, W>>(
    a: A,
    start: BitBoard,
    line: Seq<BitMove>,
    notes: Seq<Note<W>>,
    records: Seq<Record<W>>,
    note: Note<W>,
    r: Record<W>,
)
    requires
        are_records(a, start, line, notes, records),
        note.at == line.len(),
        is_record(a, end_of(start, line), note.policy, note.worth, r),
    ensures
        are_records(a, start, line, notes.push(note), records.push(r)),
{
    reveal(are_records);
    assert(line.subrange(0, line.len() as int) =~= line);
    let n = notes.push(note);
    let q = records.push(r);
    assert forall|i: int| 0 <= i < q.len() implies is_record(
        a,
        stood(start, line, n[i].at),
        n[i].policy,
        n[i].worth,
        #[trigger] q[i],
    ) by {
        if i < records.len() {
            assert(n[i] == notes[i] && q[i] == records[i]);
        }
    }
}

/// A line goes on from an opening, some turns to `b`.
#[verifier::opaque]
pub open spec fn on_line(
    start: BitBoard,
    open: Seq<BitMove>,
    line: Seq<BitMove>,
    b: BitBoard,
    turns: int,
    opening: int,
) -> bool {
    &&& opens_with(start, open, end_of(start, open), opening)
    &&& open.len() <= line.len()
    &&& line.subrange(0, open.len() as int) == open
    &&& legal_line(start, line)
    &&& end_of(start, line) == b
    &&& turns_of(line) == turns_of(open) + turns
}

#[verifier::spinoff_prover]
proof fn lemma_on_line_start(start: BitBoard, open: Seq<BitMove>, b: BitBoard, opening: int)
    requires
        opens_with(start, open, b, opening),
    ensures
        on_line(start, open, open, b, 0, opening),
{
    reveal(on_line);
    assert(open.subrange(0, open.len() as int) =~= open);
}

#[verifier::spinoff_prover]
proof fn lemma_on_line_step(
    start: BitBoard,
    open: Seq<BitMove>,
    line: Seq<BitMove>,
    b: BitBoard,
    turns: int,
    opening: int,
    m: BitMove,
)
    requires
        on_line(start, open, line, b, turns, opening),
        is_legal(b, m),
    ensures
        on_line(
            start,
            open,
            line.push(m),
            b.played(m),
            turns + if m.pail_only() {
                0int
            } else {
                1
            },
            opening,
        ),
{
    reveal(on_line);
    lemma_longer(start, line, m);
    assert(line.push(m).subrange(0, open.len() as int) =~= open);
}

/// What is kept of a game: records of the noted positions in the order of play.
#[verifier::opaque]
pub open spec fn is_kept<S, W, A: Appraiser<S, W>>(
    a: A,
    start: BitBoard,
    line: Seq<BitMove>,
    first: int,
    notes: Seq<Note<W>>,
    records: Seq<Record<W>>,
    all: bool,
) -> bool {
    &&& 0 <= first <= line.len()
    &&& are_records(a, start, line, notes, records)
    &&& in_order(notes, first, line.len() as int, all)
}

#[verifier::spinoff_prover]
proof fn lemma_kept_start<S, W, A: Appraiser<S, W>>(
    a: A,
    start: BitBoard,
    line: Seq<BitMove>,
    notes: Seq<Note<W>>,
    records: Seq<Record<W>>,
    all: bool,
)
    requires
        notes.len() == 0,
        records.len() == 0,
    ensures
        is_kept(a, start, line, line.len() as int, notes, records, all),
{
    reveal(is_kept);
    reveal(are_records);
    reveal(in_order);
}

/// A move without a note.
#[verifier::spinoff_prover]
proof fn lemma_kept_move<S, W, A: Appraiser<S, W>>(
    a: A,
    start: BitBoard,
    line: Seq<BitMove>,
    first: int,
    notes: Seq<Note<W>>,
    records: Seq<Record<W>>,
    all: bool,
    m: BitMove,
)
    requires
        is_kept(a, start, line, first, notes, records, all),
        !all,
    ensures
        is_kept(a, start, line.push(m), first, notes, records, all),
{
    reveal(is_kept);
    assert forall|i: int| 0 <= i < notes.len() implies 0 <= (#[trigger] notes[i]).at <= line.len() && line.push(
        m,
    ).subrange(0, notes[i].at) == line.subrange(0, notes[i].at) by {
        reveal(in_order);
        assert(line.push(m).subrange(0, notes[i].at) =~= line.subrange(0, notes[i].at));
    }
    lemma_records_longer(a, start, line, m, notes, records);
    assert(in_order(notes, first, line.push(m).len() as int, all)) by {
        reveal(in_order);
    }
}

/// A move with a note of the position before it.
#[verifier::spinoff_prover]
proof fn lemma_kept_note<S, W, A: Appraiser<S, W>>(
    a: A,
    start: BitBoard,
    line: Seq<BitMove>,
    first: int,
    notes: Seq<Note<W>>,
    records: Seq<Record<W>>,
    all: bool,
    m: BitMove,
    note: Note<W>,
    r: Record<W>,
)
    requires
        is_kept(a, start, line, first, notes, records, all),
        note.at == line.len(),
        is_record(a, end_of(start, line), note.policy, note.worth, r),
    ensures
        is_kept(a, start, line.push(m), first, notes.push(note), records.push(r), all),
{
    reveal(is_kept);
    let more = notes.push(note);
    assert(line.subrange(0, line.len() as int) =~= line);
    lemma_records_more(a, start, line, notes, records, note, r);
    assert forall|i: int| 0 <= i < more.len() implies 0 <= (#[trigger] more[i]).at <= line.len() && line.push(
        m,
    ).subrange(0, more[i].at) == line.subrange(0, more[i].at) by {
        reveal(in_order);
        if i < notes.len() {
            assert(more[i] == notes[i]);
        }
        assert(line.push(m).subrange(0, more[i].at) =~= line.subrange(0, more[i].at));
    }
    lemma_records_longer(a, start, line, m, more, records.push(r));
    assert(in_order(more, first, line.push(m).len() as int, all)) by {
        reveal(in_order);
        assert forall|i: int| 0 <= i < notes.len() implies more[i] == #[trigger] notes[i] by {}
    }
}

/// A game of legal moves from the start: a random opening of `opening` turns, or
/// up to where the game stands still, then the counted turns. The winner is that
/// of the last position. There is an example of every noted position, in the
/// order of play, with `all` of every position after the opening.
pub open spec fn is_play<S, W, A: Appraiser<S, W>>(
    g: Game<W>,
    a: A,
    r: SelfPlayResult<W>,
    opening: int,
    max_moves: int,
    all: bool,
) -> bool {
    let open = g.line.subrange(0, g.first);
    &&& 0 <= g.first <= g.line.len()
    &&& opens_with(g.start, open, end_of(g.start, open), opening)
    &&& legal_line(g.start, g.line)
    &&& r.move_count == turns_of(g.line) - turns_of(open)
    &&& r.move_count <= max_moves
    &&& r.winner == g.end()@.winner()
    &&& in_order(g.notes, g.first, g.line.len() as int, all)
    &&& are_examples(a, g.start, g.line, g.notes, g.outcome, r.examples@)
}

/// What a game was: its moves, how many of them were the opening, the worth of
/// its end for white, and what was noted.
pub struct Game<W> {
    pub start: BitBoard,
    pub line: Seq<BitMove>,
    pub first: int,
    pub outcome: W,
    pub notes: Seq<Note<W>>,
}

impl<W> Game<W> {
    /// The last position.
    pub open spec fn end(self) -> BitBoard {
        end_of(self.start, self.line)
    }

    /// The position of a note.
    pub open spec fn noted(self, i: int) -> BitBoard {
        stood(self.start, self.line, self.notes[i].at)
    }
}

impl<S: Copy, W: Copy, A: Appraiser<S, W>, O: Oracle<W>> MCTSEngine<S, W, A, O> {
    /// The tree belongs to the position, or there is none.
    pub open spec fn in_step(&self, bb: BitBoard) -> bool {
        self.tree.nodes@.len() > 0 ==> self.root == bb
    }

    /// Plays a move and keeps the tree below it. Whether a turn is over.
    #[verifier::spinoff_prover]
    fn advance(&mut self, bb: &mut BitBoard, mv: &BitMove, Ghost(moves): Ghost<Seq<BitMove>>) -> (r: bool)
        requires
            old(self).wf(),
            old(self).in_step(*old(bb)),
            goes_on(*old(bb), moves),
            is_legal(*old(bb), *mv),
        ensures
            final(self).wf(),
            final(self).in_step(*final(bb)),
            *final(self) == (MCTSEngine { tree: final(self).tree, root: *final(bb), ..*old(self) }),
            keeps_below(old(self).tree, final(self).tree, *mv),
            *final(bb) == old(bb).played(*mv),
            board_ok(*final(bb), 0),
            r == !mv.pail_only(),
    {
        proof {
            reveal(keeps_below);
        }
        let _ = self.tree.retain_subtree(mv);
        let r: bool = play(bb, mv, Ghost(moves));
        self.root = *bb;
        r
    }

    /// Records a position before its move.
    #[verifier::spinoff_prover]
    fn record(&self, bb: &BitBoard, policy: Vec<W>, worth: W) -> (r: Record<W>)
        requires
            bb.wf(),
        ensures
            is_record(self.appraiser, *bb, policy@, worth, r),
    {
        let is_white: bool = bb.current_player == Player::White;
        let zero: W = self.appraiser.zero();
        let one: W = self.appraiser.one();
        let planes = bb_to_planes(bb, zero, one);
        proof {
            assert(paints(planes@, *bb, zero, one));
            assert(shows(self.appraiser, planes@, *bb));
        }
        let score: W = if is_white { worth } else { self.appraiser.negated(worth) };
        Record { planes, policy, is_white, score }
    }

    /// A training example from a record and the worth of the game for white.
    #[verifier::spinoff_prover]
    fn example(&self, rec: Record<W>, outcome: W, zero: W, Ghost(b): Ghost<BitBoard>, Ghost(note): Ghost<Note<W>>) -> (r:
        TrainingExample<W>)
        requires
            is_record(self.appraiser, b, note.policy, note.worth, rec),
            call_ensures(A::zero, (&self.appraiser,), zero),
        ensures
            is_example(self.appraiser, b, note, outcome, r),
    {
        let value_target: W = if rec.is_white { outcome } else { self.appraiser.negated(outcome) };
        let policy_target: Vec<W> = if rec.is_white { rec.policy } else { vflip_policy(&rec.policy, zero) };
        TrainingExample { planes: rec.planes, policy_target, value_target, search_score: rec.score }
    }

    /// Training examples from the records of a game and its worth for white.
    #[verifier::spinoff_prover]
    fn finish_examples(
        &self,
        records: Vec<Record<W>>,
        outcome: W,
        Ghost(start): Ghost<BitBoard>,
        Ghost(line): Ghost<Seq<BitMove>>,
        Ghost(notes): Ghost<Seq<Note<W>>>,
    ) -> (r: Vec<TrainingExample<W>>)
        requires
            are_records(self.appraiser, start, line, notes, records@),
        ensures
            are_examples(self.appraiser, start, line, notes, outcome, r@),
    {
        let zero: W = self.appraiser.zero();
        let ghost a = self.appraiser;
        let mut rest = records;
        let ghost all = rest@;
        proof {
            reveal(are_records);
            reveal(are_examples);
        }
        let ghost n = all.len() as int;
        let mut reversed: Vec<TrainingExample<W>> = Vec::new();
        while rest.len() > 0
            invariant
                a == self.appraiser,
                call_ensures(A::zero, (&self.appraiser,), zero),
                n == all.len() == notes.len(),
                rest@.len() + reversed@.len() == n,
                forall|i: int| 0 <= i < rest@.len() ==> #[trigger] rest@[i] == all[i],
                forall|i: int|
                    0 <= i < n ==> is_record(
                        a,
                        stood(start, line, notes[i].at),
                        notes[i].policy,
                        notes[i].worth,
                        #[trigger] all[i],
                    ),
                forall|i: int|
                    0 <= i < reversed@.len() ==> is_example(
                        a,
                        stood(start, line, notes[n - 1 - i].at),
                        notes[n - 1 - i],
                        outcome,
                        #[trigger] reversed@[i],
                    ),
            decreases rest@.len(),
        {
            let ghost k = rest@.len() - 1;
            let rec = rest.pop().unwrap();
            proof {
                assert(rec == all[k]);
            }
            let e = self.example(rec, outcome, zero, Ghost(stood(start, line, notes[k].at)), Ghost(notes[k]));
            reversed.push(e);
        }
        let mut r: Vec<TrainingExample<W>> = Vec::new();
        let ghost back = reversed@;
        while reversed.len() > 0
            invariant
                n == back.len(),
                n == notes.len(),
                reversed@.len() + r@.len() == n,
                forall|i: int| 0 <= i < reversed@.len() ==> #[trigger] reversed@[i] == back[i],
                forall|i: int|
                    0 <= i < n ==> is_example(
                        a,
                        stood(start, line, notes[n - 1 - i].at),
                        notes[n - 1 - i],
                        outcome,
                        #[trigger] back[i],
                    ),
                forall|i: int|
                    0 <= i < r@.len() ==> is_example(
                        a,
                        stood(start, line, notes[i].at),
                        notes[i],
                        outcome,
                        #[trigger] r@[i],
                    ),
            decreases reversed@.len(),
        {
            let ghost k = reversed@.len() - 1;
            let e = reversed.pop().unwrap();
            proof {
                assert(e == back[k]);
                assert(n - 1 - k == r@.len());
            }
            r.push(e);
        }
        r
    }

    /// Whether a search is a full one: always, or by a drawn fraction.
    pub open spec fn decides_full(&self, after: Self, always: bool, fraction: W, full: bool) -> bool {
        if always {
            full && after == *self
        } else {
            &&& after == (MCTSEngine { rng: after.rng, ..*self })
            &&& after.rng.state == xorshift(self.rng.state)
            &&& call_ensures(
                A::exceeds_fraction,
                (&self.appraiser, fraction, fraction_of(after.rng.state)),
                full,
            )
        }
    }

    /// How a move of a self-play game is chosen: early in a heuristic game it is
    /// drawn by the policy, early in a network game by the visits, else it is the
    /// most visited.
    pub open spec fn chooses(
        &self,
        after: Self,
        moves: Seq<BitMove>,
        policy: Seq<W>,
        network: bool,
        early: bool,
        temperature: W,
        m: BitMove,
    ) -> bool {
        &&& after == (MCTSEngine { rng: after.rng, ..*self })
        &&& if early && !network {
            exists|one: W, k: int|
                #![trigger self.selects(after, moves, policy, one, k)]
                call_ensures(A::one, (&self.appraiser,), one) && self.selects(after, moves, policy, one, k) && 0 <= k
                    < moves.len() && m == moves[k]
        } else if early {
            exists|k: int| #[trigger]
                self.samples(after, temperature, k) && m == self.tree.nodes@[self.tree.nodes@[0].children_start
                    + k].bitmove
        } else {
            after == *self && exists|c: int|
                #![trigger is_favourite(self.tree.nodes@, c)]
                is_favourite(self.tree.nodes@, c) && m == self.tree.nodes@[c].bitmove
        }
    }

    /// Whether the next search is a full one: always, or by chance.
    #[verifier::spinoff_prover]
    fn is_full_search(&mut self, always: bool, fraction: W) -> (r: bool)
        requires
            old(self).wf(),
        ensures
            final(self).wf(),
            old(self).decides_full(*final(self), always, fraction, r),
    {
        if always {
            return true;
        }
        let roll: u64 = self.rng.next_fraction();
        self.appraiser.exceeds_fraction(fraction, roll)
    }

    /// The move of a self-play game: by the policy early in a heuristic game,
    /// by the visits early in a network game, else the most visited.
    #[verifier::spinoff_prover]
    fn choose_move(
        &mut self,
        bb: &BitBoard,
        moves: &Vec<BitMove>,
        policy: &Vec<W>,
        network: bool,
        early: bool,
        temperature: W,
    ) -> (r: BitMove)
        requires
            old(self).wf(),
            old(self).tree.nodes@.len() > 0,
            old(self).tree.nodes@[0].children_count > 0,
            old(self).root == *bb,
            goes_on(*bb, moves@),
            moves@.len() > 0,
        ensures
            final(self).wf(),
            is_legal(*bb, r),
            old(self).chooses(*final(self), moves@, policy@, network, early, temperature, r),
    {
        if early && !network {
            proof {
                assert forall|i: int| 0 <= i < moves@.len() implies (#[trigger] moves@[i]).valid() && is_legal(
                    *bb,
                    moves@[i],
                ) by {
                    lemma_turn_after(*bb, moves@, i);
                }
            }
            let one: W = self.appraiser.one();
            let i: usize = self.select_move_by_policy(moves, policy, one);
            assert(is_legal(*bb, moves@[i as int]));
            assert(call_ensures(A::one, (&self.appraiser,), one));
            return moves[i];
        }
        if early {
            if let Some(mv) = self.sample_bitmove_by_temp(temperature) {
                return mv;
            }
        }
        self.most_visited_bitmove()
    }

    /// A search of a position, with noise at the root, and its result.
    #[verifier::opaque]
    pub open spec fn thinks(
        a: A,
        b: BitBoard,
        batch_size: Option<u32>,
        before: Self,
        after: Self,
        res: MCTSSearchResult<W>,
    ) -> bool {
        &&& before.appraiser == a
        &&& match batch_size {
            Some(n) => before.searches_batched(after, b, n as int, true),
            None => before.searches(after, b, false, true),
        }
        &&& reports(a, after.tree.nodes@, res)
    }

    /// The state a game begins in: caches and tree are empty, and the opening was
    /// drawn.
    pub open spec fn begins(&self, begin: Self, start: BitBoard, open: Seq<BitMove>) -> bool {
        &&& begin.tree.nodes@.len() == 0
        &&& begin.heuristic_cache@ == Map::<u64, W>::empty()
        &&& begin.network_cache@ == Map::<u64, (Vec<W>, W)>::empty()
        &&& begin == (MCTSEngine {
            tree: begin.tree,
            heuristic_cache: begin.heuristic_cache,
            network_cache: begin.network_cache,
            engine: begin.engine,
            rng: begin.rng,
            ..*self
        })
        &&& drawn_line(self.rng.state, start, open)
        &&& begin.rng.state == rolled(self.rng.state, open.len())
    }

    /// A game by tree search: it goes on up to `max_moves` turns or to where it
    /// stands still, every move is the one that its search leads to, and the full
    /// searches are noted; where every search is a full one, every position after
    /// the opening is. A position with more moves than a tree may have nodes ends
    /// it too. The engine is left as after the last turn, or as after a search
    /// that found no move, but for the tree and the simulations.
    pub open spec fn is_tree_game(
        &self,
        g: Game<W>,
        p: TreeRules<W>,
        turns: Seq<TreeTurn<S, W, A, O>>,
        begin: Self,
        end: Self,
        last: Self,
        after: Self,
        r: SelfPlayResult<W>,
        opening: int,
        max_moves: int,
    ) -> bool {
        &&& is_play(g, self.appraiser, r, opening, max_moves, p.always)
        &&& if r.move_count == max_moves || stands_still(g.end()) {
            last == end
        } else {
            gives_up(p, end, last, g.end())
        }
        &&& after == (MCTSEngine { tree: after.tree, simulations: self.simulations, ..last })
        &&& after.tree.nodes@.len() == 0
        &&& r.move_count == max_moves || stands_still(g.end()) || crowded(g.end())
        &&& self.gives_end(g.end(), g.outcome)
        &&& self.begins(begin, g.start, g.line.subrange(0, g.first))
        &&& begin.engine == self.engine
        &&& tree_line(p, turns, begin, end, g.start, g.line, g.first)
        &&& notes_full(g.notes, turns, g.first)
    }

    /// The rules of a game by tree search: moves are drawn in the first turns,
    /// in a network game only at a temperature above zero.
    pub open spec fn sets_rules(
        &self,
        p: TreeRules<W>,
        batch_size: Option<u32>,
        temp_moves: int,
        temperature: W,
        fraction: W,
        cheap_sims: u32,
    ) -> bool {
        &&& p.batch_size == batch_size
        &&& p.temp_moves == temp_moves
        &&& p.temperature == temperature
        &&& p.fraction == fraction
        &&& p.full_sims == self.simulations
        &&& p.cheap_sims == cheap_sims
        &&& call_ensures(A::at_least_one, (&self.appraiser, fraction), p.always)
        &&& if batch_size is None {
            p.warm
        } else {
            call_ensures(A::positive, (&self.appraiser, temperature), p.warm)
        }
    }

    /// The result is that of a game by tree search, which leaves the engine as
    /// `after`.
    pub open spec fn plays_tree_game(
        &self,
        after: Self,
        r: SelfPlayResult<W>,
        batch_size: Option<u32>,
        opening: int,
        max_moves: int,
        temp_moves: int,
        temperature: W,
        fraction: W,
        cheap_sims: u32,
    ) -> bool {
        exists|g: Game<W>, p: TreeRules<W>, turns: Seq<TreeTurn<S, W, A, O>>, begin: Self, end: Self, last: Self|
            #![trigger self.is_tree_game(g, p, turns, begin, end, last, after, r, opening, max_moves)]
            self.sets_rules(p, batch_size, temp_moves, temperature, fraction, cheap_sims) && self.is_tree_game(
                g,
                p,
                turns,
                begin,
                end,
                last,
                after,
                r,
                opening,
                max_moves,
            )
    }

    /// Searches a position of a game, with noise at the root.
    #[verifier::spinoff_prover]
    fn think(&mut self, bb: &BitBoard, batch_size: Option<u32>, Ghost(moves): Ghost<Seq<BitMove>>) -> (r: MCTSSearchResult<
        W,
    >)
        requires
            old(self).wf(),
            bb.wf(),
            goes_on(*bb, moves),
            bb@.winner() is None,
            can_act(*bb),
            batch_size matches Some(n) ==> n > 0,
        ensures
            final(self).wf(),
            final(self).in_step(*bb),
            final(self).simulations == old(self).simulations,
            final(self).engine == old(self).engine,
            final(self).appraiser == old(self).appraiser,
            r.best_move is None ==> crowded(*bb),
            r.best_move is Some ==> final(self).tree.nodes@.len() > 0 && final(self).tree.nodes@[0].children_count > 0
                && final(self).root == *bb,
            Self::thinks(old(self).appraiser, *bb, batch_size, *old(self), *final(self), r),
    {
        proof {
            assert(board_ok(*bb, 1)) by {
                reveal(goes_on);
            }
            reveal(MCTSEngine::thinks);
        }
        match batch_size {
            Some(n) => self.search_batched(bb, n, true),
            None => self.search(bb, false, true),
        }
    }

    /// Plays a game against itself by tree search, with noise at the roots:
    /// after a random opening up to `max_moves` turns, the first `temp_moves` of
    /// them drawn by chance. Only full searches give training examples; the
    /// others use fewer simulations. With a batch size the network evaluates in
    /// batches, else the heuristic does.
    #[verifier::spinoff_prover]
    fn play_game(
        &mut self,
        batch_size: Option<u32>,
        random_opening: usize,
        max_moves: usize,
        temp_moves: usize,
        temperature: W,
        full_search_fraction: W,
        cheap_sims: u32,
    ) -> (r: SelfPlayResult<W>)
        requires
            old(self).wf(),
            max_moves <= u32::MAX,
            batch_size matches Some(n) ==> n > 0,
        ensures
            final(self).wf(),
            final(self).simulations == old(self).simulations,
            final(self).engine == old(self).engine,
            final(self).tree.nodes@.len() == 0,
            final(self).appraiser == old(self).appraiser,
            old(self).plays_tree_game(
                *final(self),
                r,
                batch_size,
                random_opening as int,
                max_moves as int,
                temp_moves as int,
                temperature,
                full_search_fraction,
                cheap_sims,
            ),
    {
        let ghost a = self.appraiser;
        self.clear_caches();
        self.clear_tree();
        let full_sims: u32 = self.simulations;
        let network: bool = batch_size.is_some();
        let warm: bool = !network || self.appraiser.positive(temperature);
        let always: bool = self.appraiser.at_least_one(full_search_fraction);
        let mut bb: BitBoard = self.random_start(random_opening);
        let ghost (start, open) = choose|start: BitBoard, open: Seq<BitMove>| #[trigger]
            opens_with(start, open, bb, random_opening as int) && drawn_line(old(self).rng.state, start, open)
                && self.rng.state == rolled(old(self).rng.state, open.len());
        let ghost first = open.len() as int;
        let ghost mut line = open;
        let ghost mut notes: Seq<Note<W>> = Seq::empty();
        let ghost begin = *self;
        let ghost mut end = *self;
        let ghost mut turns: Seq<TreeTurn<S, W, A, O>> = Seq::empty();
        let ghost p = TreeRules {
            batch_size,
            temp_moves: temp_moves as int,
            temperature,
            fraction: full_search_fraction,
            always,
            warm,
            full_sims,
            cheap_sims,
        };
        let mut records: Vec<Record<W>> = Vec::new();
        let mut move_count: u32 = 0;
        let mut over: bool = false;
        proof {
            assert(open.subrange(0, first) =~= open);
            lemma_on_line_start(start, open, bb, random_opening as int);
            lemma_kept_start(a, start, line, notes, records@, always);
            lemma_tree_line_start(p, begin, start, line);
            lemma_notes_full_start::<S, W, A, O>(first);
        }
        while !over
            invariant
                self.wf(),
                a == old(self).appraiser,
                self.appraiser == a,
                self.engine == old(self).engine,
                self.in_step(bb),
                board_ok(bb, 0),
                first == open.len(),
                tree_line(p, turns, begin, end, start, line, first),
                !over ==> *self == end,
                over ==> if move_count == max_moves || stands_still(bb) {
                    *self == end
                } else {
                    gives_up(p, end, *self, bb)
                },
                notes_full(notes, turns, first),
                turns.len() == line.len() - first,
                p == (TreeRules {
                    batch_size,
                    temp_moves: temp_moves as int,
                    temperature,
                    fraction: full_search_fraction,
                    always,
                    warm,
                    full_sims,
                    cheap_sims,
                }),
                network == batch_size is Some,
                on_line(start, open, line, bb, move_count as int, random_opening as int),
                is_kept(a, start, line, first, notes, records@, always),
                over ==> move_count == max_moves || stands_still(bb) || crowded(bb),
                move_count <= max_moves <= u32::MAX,
                batch_size matches Some(n) ==> n > 0,
            decreases
                    if over {
                        0int
                    } else {
                        2 + 2 * (max_moves - move_count) - if bb.awaiting_barrel {
                            1int
                        } else {
                            0
                        }
                    },
        {
            proof {
                assert(bb.wf()) by {
                    reveal(board_ok);
                }
            }
            match classify(&bb) {
                Leaf::Over(_) => {
                    over = true;
                },
                Leaf::Open(moves) => {
                    if move_count as usize >= max_moves {
                        over = true;
                    } else {
                        let ghost from = *self;
                        let full: bool = self.is_full_search(always, full_search_fraction);
                        self.simulations = if full { full_sims } else { cheap_sims };
                        let ghost before = *self;
                        let result: MCTSSearchResult<W> = self.think(&bb, batch_size, Ghost(moves@));
                        let ghost after = *self;
                        if result.best_move.is_none() {
                            over = true;
                            proof {
                                lemma_goes_on_stands(bb, moves@);
                                assert(gives_up(p, end, *self, bb)) by {
                                    reveal(gives_up);
                                    assert(Self::thinks(from.appraiser, bb, p.batch_size, before, after, result));
                                    assert(from.decides_full(
                                        MCTSEngine { rng: before.rng, ..from },
                                        p.always,
                                        p.fraction,
                                        full,
                                    ));
                                }
                            }
                        } else {
                            let ghost note = Note {
                                at: line.len() as int,
                                policy: result.policy_target@,
                                worth: result.root_value,
                            };
                            let early: bool = (move_count as usize) < temp_moves && warm;
                            let mv: BitMove = self.choose_move(
                                &bb,
                                &moves,
                                &result.policy_target,
                                network,
                                early,
                                temperature,
                            );
                            let ghost chosen = *self;
                            let ghost at = bb;
                            if full {
                                let rec = self.record(&bb, result.policy_target, result.root_value);
                                proof {
                                    assert(end_of(start, line) == bb) by {
                                        reveal(on_line);
                                    }
                                    lemma_kept_note(a, start, line, first, notes, records@, always, mv, note, rec);
                                }
                                records.push(rec);
                            } else {
                                proof {
                                    lemma_kept_move(a, start, line, first, notes, records@, always, mv);
                                }
                            }
                            proof {
                                lemma_on_line_step(start, open, line, bb, move_count as int, random_opening as int, mv);
                                lemma_turn_parts(bb, mv);
                            }
                            let ghost so_far = move_count as int;
                            if self.advance(&mut bb, &mv, Ghost(moves@)) {
                                move_count = move_count + 1;
                            }
                            proof {
                                let turn = TreeTurn {
                                    from,
                                    ready: before,
                                    thought: after,
                                    chosen,
                                    to: *self,
                                    full,
                                    moves: moves@,
                                    result,
                                };
                                assert(turn.leads_to(p, at, so_far, mv)) by {
                                    reveal(TreeTurn::leads_to);
                                }
                                assert(end_of(start, line) == at && so_far == turns_of(line) - turns_of(
                                    line.subrange(0, first),
                                )) by {
                                    reveal(on_line);
                                }
                                lemma_tree_line_more(p, turns, begin, start, line, first, turn, mv);
                                lemma_notes_full_more(notes, turns, first, turn, note);
                                if full {
                                    notes = notes.push(note);
                                }
                                turns = turns.push(turn);
                                line = line.push(mv);
                                end = *self;
                            }
                        }
                    }
                },
            }
        }
        let ghost last = *self;
        self.simulations = full_sims;
        self.clear_tree();
        proof {
            assert(bb.wf()) by {
                reveal(board_ok);
            }
        }
        let (outcome, winner): (W, Option<Player>) = self.determine_outcome(&bb);
        proof {
            assert(are_records(a, start, line, notes, records@)) by {
                reveal(is_kept);
            }
        }
        let examples = self.finish_examples(records, outcome, Ghost(start), Ghost(line), Ghost(notes));
        let r = SelfPlayResult { examples, winner, move_count };
        proof {
            let g = Game { start, line, first, outcome, notes };
            reveal(on_line);
            reveal(is_kept);
            assert(is_play(g, a, r, random_opening as int, max_moves as int, always));
            assert(old(self).is_tree_game(
                g,
                p,
                turns,
                begin,
                end,
                last,
                *self,
                r,
                random_opening as int,
                max_moves as int,
            ));
            assert(old(self).sets_rules(
                p,
                batch_size,
                temp_moves as int,
                temperature,
                full_search_fraction,
                cheap_sims,
            ));
        }
        r
    }

    /// A self-play game by heuristic search.
    #[verifier::spinoff_prover]
    pub fn play_heuristic_game(
        &mut self,
        random_opening: usize,
        max_moves: usize,
        temp_moves: usize,
        full_search_fraction: W,
        cheap_sims: u32,
    ) -> (r: SelfPlayResult<W>)
        requires
            old(self).wf(),
            max_moves <= u32::MAX,
        ensures
            final(self).wf(),
            final(self).simulations == old(self).simulations,
            final(self).engine == old(self).engine,
            final(self).tree.nodes@.len() == 0,
            exists|one: W| #[trigger]
                call_ensures(A::one, (&old(self).appraiser,), one) && old(self).plays_tree_game(
                    *final(self),
                    r,
                    None,
                    random_opening as int,
                    max_moves as int,
                    temp_moves as int,
                    one,
                    full_search_fraction,
                    cheap_sims,
                ),
    {
        let one: W = self.appraiser.one();
        self.play_game(None, random_opening, max_moves, temp_moves, one, full_search_fraction, cheap_sims)
    }

    /// A self-play game by network search.
    #[verifier::spinoff_prover]
    pub fn play_network_game(
        &mut self,
        batch_size: u32,
        random_opening: usize,
        max_moves: usize,
        temp_moves: usize,
        temperature: W,
        full_search_fraction: W,
        cheap_sims: u32,
    ) -> (r: SelfPlayResult<W>)
        requires
            old(self).wf(),
            max_moves <= u32::MAX,
            batch_size > 0,
        ensures
            final(self).wf(),
            final(self).simulations == old(self).simulations,
            final(self).engine == old(self).engine,
            final(self).tree.nodes@.len() == 0,
            old(self).plays_tree_game(
                *final(self),
                r,
                Some(batch_size),
                random_opening as int,
                max_moves as int,
                temp_moves as int,
                temperature,
                full_search_fraction,
                cheap_sims,
            ),
    {
        self.play_game(
            Some(batch_size),
            random_opening,
            max_moves,
            temp_moves,
            temperature,
            full_search_fraction,
            cheap_sims,
        )
    }
}

/// The first move of the list that is the same as another.
#[verifier::spinoff_prover]
fn find_same(moves: &Vec<BitMove>, mv: &BitMove) -> (r: Option<usize>)
    ensures
        match r {
            Some(i) => i < moves@.len() && alike(moves@[i as int], *mv),
            None => forall|i: int| 0 <= i < moves@.len() ==> !alike(#[trigger] moves@[i], *mv),
        },
{
    let mut i: usize = 0;
    while i < moves.len()
        invariant
            i <= moves@.len(),
            forall|k: int| 0 <= k < i ==> !alike(#[trigger] moves@[k], *mv),
        decreases moves@.len() - i,
    {
        if moves[i].same(mv) {
            return Some(i);
        }
        i = i + 1;
    }
    None
}

/// A search of a position by an engine, which leaves it as `f`.
#[verifier::opaque]
pub open spec fn advised(
    e: BitBoardEngine<NoOutput>,
    f: BitBoardEngine<NoOutput>,
    b: BitBoard,
    depth: u8,
    r: (i32, Option<BitMove>),
) -> bool {
    &&& e.aspirates(f, b, depth as int, None, r)
    &&& e.stops_in_time(f)
    &&& e.searched_from(f, b)
    &&& e.stays_true(f, b)
    &&& e.proves_at(f, b, r.0 as int)
    &&& e.finds_plainly(f, b, depth, depth as int, true, r)
    &&& e.answers(
        b,
        depth,
        (i32::MIN + 1) as i32,
        (i32::MAX - 1) as i32,
        seq![b.hash],
        r,
        f.search_stopped,
    )
}

/// What the alpha-beta engine says of a position with room for a search: its
/// score, and the legal move that is the one it answered, if there is one. The
/// engine is `f` after it.
#[verifier::opaque]
pub open spec fn consulted(
    e: BitBoardEngine<NoOutput>,
    f: BitBoardEngine<NoOutput>,
    b: BitBoard,
    depth: u8,
    moves: Seq<BitMove>,
    score: i32,
    mv: Option<BitMove>,
) -> bool {
    if !searchable(b) {
        score == 0 && mv is None && f == e
    } else {
        exists|found: Option<BitMove>|
            #![trigger advised(e, f, b, depth, (score, found))]
            advised(e, f, b, depth, (score, found)) && match mv {
                Some(m) => moves.contains(m) && found is Some && alike(m, found->0),
                None => found matches Some(f) ==> forall|i: int| 0 <= i < moves.len() ==> !alike(#[trigger] moves[i], f),
            }
    }
}

/// The score of a finished or unfinished position for white, in centipawns.
pub open spec fn plain_score<S: Copy, W: Copy, A: Appraiser<S, W>, O: Oracle<W>>(e: MCTSEngine<S, W, A, O>, b: BitBoard) -> int {
    match b@.winner() {
        Some(Player::White) => 100_000,
        Some(Player::Black) => -100_000,
        None => heuristic_of(e.engine.weights, b),
    }
}

/// A policy with the shares of the first `n` moves, the last of those that share
/// an output, and `zero` elsewhere.
pub open spec fn with_shares<W>(moves: Seq<BitMove>, shares: Seq<W>, zero: W, n: nat) -> Seq<W>
    decreases n,
{
    if n == 0 {
        Seq::new(1332, |i: int| zero)
    } else {
        let before = with_shares(moves, shares, zero, (n - 1) as nat);
        if n - 1 < shares.len() {
            before.update(policy_of(moves[n - 1]@), shares[n - 1])
        } else {
            before
        }
    }
}

/// A game of a match between the states `before` and `after`: a random opening,
/// then up to `max_moves` turns, each by the player whose turn it is, to where
/// the game stands still, or to where a player has no move.
pub open spec fn is_match_game<S: Copy, W: Copy, A: Appraiser<S, W>, O: Oracle<W>>(
    before: MCTSEngine<S, W, A, O>,
    g: MatchGame<S, W, A, O>,
    after: MCTSEngine<S, W, A, O>,
    winner: Option<Player>,
    p: MatchRules,
    opening: int,
    max_moves: int,
) -> bool {
    let open = g.line.subrange(0, g.first);
    let last = end_of(g.start, g.line);
    let turns = turns_of(g.line) - turns_of(open);
    &&& 0 <= g.first <= g.line.len()
    &&& opens_with(g.start, open, end_of(g.start, open), opening)
    &&& legal_line(g.start, g.line)
    &&& before.begins(g.begin, g.start, open)
    &&& forgot(before.engine, g.begin.engine)
    &&& match_line(p, g.turns, g.begin, g.end, g.start, g.line, g.first)
    &&& turns <= max_moves
    &&& if turns == max_moves || stands_still(last) {
        g.last == g.end
    } else if p.by_tree(last) {
        crowded(last) && g.end.searches_batched(g.last, last, p.batch_size as int, false)
    } else {
        &&& g.last == (MCTSEngine { engine: g.last.engine, ..g.end })
        &&& match_answer(g.end.engine, g.last.engine, last, p.depth, None)
    }
    &&& after == (MCTSEngine { tree: after.tree, ..g.last })
    &&& after.tree.nodes@.len() == 0
    &&& winner == last@.winner()
}

/// What a game of a match was: its moves, how many of them were the opening, its
/// turns, the states it began and ended in, and the state after a last player
/// that had no move.
pub struct MatchGame<S: Copy, W: Copy, A: Appraiser<S, W>, O: Oracle<W>> {
    pub start: BitBoard,
    pub line: Seq<BitMove>,
    pub first: int,
    pub turns: Seq<MatchTurn<S, W, A, O>>,
    pub begin: MCTSEngine<S, W, A, O>,
    pub end: MCTSEngine<S, W, A, O>,
    pub last: MCTSEngine<S, W, A, O>,
}

/// The winner is that of some game of a match.
#[verifier::opaque]
pub open spec fn won_match_game<S: Copy, W: Copy, A: Appraiser<S, W>, O: Oracle<W>>(
    before: MCTSEngine<S, W, A, O>,
    after: MCTSEngine<S, W, A, O>,
    winner: Option<Player>,
    p: MatchRules,
    opening: int,
    max_moves: int,
) -> bool {
    exists|g: MatchGame<S, W, A, O>| #[trigger] is_match_game(before, g, after, winner, p, opening, max_moves)
}

impl<S: Copy, W: Copy, A: Appraiser<S, W>, O: Oracle<W>> MCTSEngine<S, W, A, O> {
    /// The alpha-beta engine's score and move for a position. A move that is not
    /// among the legal ones counts as none.
    #[verifier::spinoff_prover]
    fn engine_move(&mut self, bb: &BitBoard, depth: u8, moves: &Vec<BitMove>) -> (r: (i32, Option<BitMove>))
        requires
            old(self).wf(),
            goes_on(*bb, moves@),
            board_ok(*bb, 0),
        ensures
            final(self).wf(),
            *final(self) == (MCTSEngine { engine: final(self).engine, ..*old(self) }),
            final(self).engine.fixed() == old(self).engine.fixed(),
            r.1 matches Some(m) ==> is_legal(*bb, m),
            consulted(old(self).engine, final(self).engine, *bb, depth, moves@, r.0, r.1),
    {
        proof {
            reveal(consulted);
        }
        if bb.move_count > u32::MAX - 300 || bb.halfmove_clock > u16::MAX - 300 {
            return (0, None);
        }
        proof {
            assert(searchable(*bb)) by {
                reveal(board_ok);
            }
        }
        let ghost before = self.engine;
        let (score, found): (i32, Option<BitMove>) = self.engine.search(bb, depth);
        proof {
            assert(advised(before, self.engine, *bb, depth, (score, found))) by {
                reveal(advised);
            }
        }
        if let Some(mv) = found {
            if let Some(i) = find_same(moves, &mv) {
                proof {
                    lemma_turn_after(*bb, moves@, i as int);
                    assert(moves@.contains(moves@[i as int]));
                }
                return (score, Some(moves[i]));
            }
        }
        (score, None)
    }

    /// The scores of all children for the side to move.
    #[verifier::spinoff_prover]
    fn child_scores(&self, bb: &BitBoard, moves: &Vec<BitMove>) -> (r: Vec<i32>)
        requires
            self.wf(),
            goes_on(*bb, moves@),
        ensures
            r@.len() == moves@.len(),
            forall|i: int|
                0 <= i < r@.len() ==> #[trigger] r@[i] == match bb.current_player {
                    Player::White => plain_score(*self, bb.played(moves@[i])),
                    Player::Black => -plain_score(*self, bb.played(moves@[i])),
                },
    {
        let mut r: Vec<i32> = Vec::with_capacity(moves.len());
        let mut i: usize = 0;
        while i < moves.len()
            invariant
                i <= moves@.len(),
                self.wf(),
                goes_on(*bb, moves@),
                r@.len() == i,
                forall|k: int|
                    0 <= k < i ==> #[trigger] r@[k] == match bb.current_player {
                        Player::White => plain_score(*self, bb.played(moves@[k])),
                        Player::Black => -plain_score(*self, bb.played(moves@[k])),
                    },
            decreases moves@.len() - i,
        {
            let mut child: BitBoard = *bb;
            proof {
                lemma_turn_after(*bb, moves@, i as int);
            }
            let _ = play(&mut child, &moves[i], Ghost(moves@));
            proof {
                assert(child.wf()) by {
                    reveal(board_ok);
                }
            }
            let score: i32 = match child.check_winner() {
                Some(Player::White) => 100_000,
                Some(Player::Black) => -100_000,
                None => self.engine.evaluate_heuristic(&child),
            };
            let own: i32 = match bb.current_player {
                Player::White => score,
                Player::Black => -score,
            };
            r.push(own);
            i = i + 1;
        }
        r
    }

    /// A policy with the shares of the moves, the last of those that share an
    /// output.
    #[verifier::spinoff_prover]
    fn policy_from_shares(&self, moves: &Vec<BitMove>, shares: &Vec<W>) -> (r: Vec<W>)
        requires
            forall|i: int| 0 <= i < moves@.len() ==> (#[trigger] moves@[i]).valid(),
        ensures
            exists|zero: W|
                #![trigger with_shares(moves@, shares@, zero, moves@.len())]
                call_ensures(A::zero, (&self.appraiser,), zero) && r@ == with_shares(moves@, shares@, zero, moves@.len()),
    {
        let zero: W = self.appraiser.zero();
        let mut r: Vec<W> = Vec::with_capacity(POLICY_SIZE);
        let mut n: usize = 0;
        while n < POLICY_SIZE
            invariant
                n <= 1332,
                r@ =~= Seq::new(n as nat, |k: int| zero),
            decreases 1332 - n,
        {
            r.push(zero);
            n = n + 1;
        }
        let mut i: usize = 0;
        while i < moves.len()
            invariant
                i <= moves@.len(),
                forall|k: int| 0 <= k < moves@.len() ==> (#[trigger] moves@[k]).valid(),
                r@.len() == 1332,
                r@ == with_shares(moves@, shares@, zero, i as nat),
            decreases moves@.len() - i,
        {
            let idx: usize = policy_index(&moves[i]) as usize;
            if i < shares.len() {
                r.set(idx, shares[i]);
            }
            i = i + 1;
        }
        proof {
            assert(call_ensures(A::zero, (&self.appraiser,), zero));
        }
        r
    }

    /// The shares by the heuristic scores of the positions behind the moves.
    #[verifier::opaque]
    pub open spec fn softened(&self, b: BitBoard, moves: Seq<BitMove>, scores: Vec<i32>, shares: Vec<W>) -> bool {
        &&& goes_on(b, moves)
        &&& scores@.len() == moves.len()
        &&& forall|i: int|
            0 <= i < moves.len() ==> #[trigger] scores@[i] == match b.current_player {
                Player::White => plain_score(*self, b.played(moves[i])),
                Player::Black => -plain_score(*self, b.played(moves[i])),
            }
        &&& call_ensures(A::soft_policy, (&self.appraiser, &scores), shares)
    }

    /// A turn by alpha-beta: the engine answered the move, and in the note the
    /// policy follows the heuristic scores of the positions behind the moves, and
    /// the worth is the search's score.
    #[verifier::opaque]
    pub open spec fn answered(&self, t: EngineTurn, b: BitBoard, depth: u8, m: BitMove, note: Note<W>) -> bool {
        &&& consulted(t.before, t.after, b, depth, t.moves, t.score, Some(m))
        &&& call_ensures(A::clamped, (&self.appraiser, t.score), note.worth)
        &&& exists|scores: Vec<i32>, shares: Vec<W>, zero: W|
            #![trigger self.softened(b, t.moves, scores, shares), with_shares(t.moves, shares@, zero, t.moves.len())]
            {
                &&& self.softened(b, t.moves, scores, shares)
                &&& call_ensures(A::zero, (&self.appraiser,), zero)
                &&& note.policy == with_shares(t.moves, shares@, zero, t.moves.len())
            }
    }

    /// The alpha-beta engine had no move for the position.
    #[verifier::opaque]
    pub open spec fn has_no_move(
        e: BitBoardEngine<NoOutput>,
        f: BitBoardEngine<NoOutput>,
        b: BitBoard,
        depth: u8,
    ) -> bool {
        exists|moves: Seq<BitMove>, score: i32|
            #![trigger consulted(e, f, b, depth, moves, score, None)]
            goes_on(b, moves) && consulted(e, f, b, depth, moves, score, None)
    }

    /// A game by alpha-beta: it goes on up to `max_moves` turns, to where it
    /// stands still, or to where the engine has no move. Every move is the
    /// engine's answer, every position after the opening is noted, and the engine
    /// ends as the last search left it.
    pub open spec fn is_alphabeta_game(
        &self,
        after: Self,
        g: Game<W>,
        turns: Seq<EngineTurn>,
        end: BitBoardEngine<NoOutput>,
        r: SelfPlayResult<W>,
        depth: u8,
        opening: int,
        max_moves: int,
    ) -> bool {
        &&& is_play(g, self.appraiser, r, opening, max_moves, true)
        &&& after == (MCTSEngine { engine: after.engine, rng: after.rng, ..*self })
        &&& drawn_line(self.rng.state, g.start, g.line.subrange(0, g.first))
        &&& after.rng.state == rolled(self.rng.state, g.first as nat)
        &&& engine_line(*self, turns, end, depth, g.start, g.line, g.first, g.notes)
        &&& if r.move_count == max_moves || stands_still(g.end()) {
            after.engine == end
        } else {
            Self::has_no_move(end, after.engine, g.end(), depth)
        }
        &&& self.gives_end(g.end(), g.outcome)
    }

    /// Plays a game against itself by alpha-beta to a depth: after a random
    /// opening up to `max_moves` turns. The policy of an example follows the
    /// heuristic scores of the moves.
    #[verifier::spinoff_prover]
    pub fn play_alphabeta_game(&mut self, depth: u8, random_opening: usize, max_moves: usize) -> (r: SelfPlayResult<W>)
        requires
            old(self).wf(),
            max_moves <= u32::MAX,
        ensures
            final(self).wf(),
            final(self).simulations == old(self).simulations,
            final(self).tree == old(self).tree,
            final(self).engine.fixed() == old(self).engine.fixed(),
            exists|g: Game<W>, turns: Seq<EngineTurn>, end: BitBoardEngine<NoOutput>|
                #![trigger old(self).is_alphabeta_game(*final(self), g, turns, end, r, depth, random_opening as int, max_moves as int)]
                old(self).is_alphabeta_game(
                    *final(self),
                    g,
                    turns,
                    end,
                    r,
                    depth,
                    random_opening as int,
                    max_moves as int,
                ),
    {
        let ghost a = self.appraiser;
        let mut bb: BitBoard = self.random_start(random_opening);
        let ghost (start, open) = choose|start: BitBoard, open: Seq<BitMove>| #[trigger]
            opens_with(start, open, bb, random_opening as int) && drawn_line(old(self).rng.state, start, open)
                && self.rng.state == rolled(old(self).rng.state, open.len());
        let ghost first = open.len() as int;
        let ghost mut line = open;
        let ghost mut notes: Seq<Note<W>> = Seq::empty();
        let ghost mut turns: Seq<EngineTurn> = Seq::empty();
        let ghost mut end = self.engine;
        let mut records: Vec<Record<W>> = Vec::new();
        let mut move_count: u32 = 0;
        let mut over: bool = false;
        let ghost e = *old(self);
        proof {
            assert(open.subrange(0, first) =~= open);
            lemma_on_line_start(start, open, bb, random_opening as int);
            lemma_kept_start(a, start, line, notes, records@, true);
            lemma_engine_line_start(e, depth, start, line);
        }
        while !over
            invariant
                self.wf(),
                a == old(self).appraiser,
                self.appraiser == a,
                e == *old(self),
                self.rng.state == rolled(old(self).rng.state, open.len()),
                engine_line(e, turns, end, depth, start, line, first, notes),
                !over ==> self.engine == end,
                first == open.len(),
                on_line(start, open, line, bb, move_count as int, random_opening as int),
                is_kept(a, start, line, first, notes, records@, true),
                over ==> if move_count == max_moves || stands_still(bb) {
                    self.engine == end
                } else {
                    Self::has_no_move(end, self.engine, bb, depth)
                },
                self.engine.fixed() == old(self).engine.fixed(),
                *self == (MCTSEngine { engine: self.engine, rng: self.rng, ..*old(self) }),
                board_ok(bb, 0),
                move_count <= max_moves <= u32::MAX,
            decreases
                    if over {
                        0int
                    } else {
                        2 + 2 * (max_moves - move_count) - if bb.awaiting_barrel {
                            1int
                        } else {
                            0
                        }
                    },
        {
            proof {
                assert(bb.wf()) by {
                    reveal(board_ok);
                }
            }
            match classify(&bb) {
                Leaf::Over(_) => {
                    over = true;
                },
                Leaf::Open(moves) => {
                    if move_count as usize >= max_moves {
                        over = true;
                    } else {
                        proof {
                            assert forall|i: int| 0 <= i < moves@.len() implies (#[trigger] moves@[i]).valid() by {
                                lemma_turn_after(bb, moves@, i);
                            }
                        }
                        let ghost asked = self.engine;
                        let (score, found): (i32, Option<BitMove>) = self.engine_move(&bb, depth, &moves);
                        proof {
                            assert(consulted(asked, self.engine, bb, depth, moves@, score, found));
                            lemma_goes_on_stands(bb, moves@);
                            assert(self.engine.weights == old(self).engine.weights) by {
                                assert(self.engine.fixed().weights == old(self).engine.fixed().weights);
                            }
                        }
                        match found {
                            None => {
                                proof {
                                    assert(Self::has_no_move(end, self.engine, bb, depth)) by {
                                        reveal(MCTSEngine::has_no_move);
                                    }
                                }
                                over = true;
                            },
                            Some(mv) => {
                                let scores = self.child_scores(&bb, &moves);
                                let shares = self.appraiser.soft_policy(&scores);
                                let policy = self.policy_from_shares(&moves, &shares);
                                let worth: W = self.appraiser.clamped(score);
                                let ghost note = Note { at: line.len() as int, policy: policy@, worth };
                                proof {
                                    assert(e.softened(bb, moves@, scores, shares)) by {
                                        reveal(MCTSEngine::softened);
                                    }
                                }
                                let ghost turn = EngineTurn { before: asked, after: self.engine, moves: moves@, score };
                                proof {
                                    assert(e.answered(turn, bb, depth, mv, note)) by {
                                        reveal(MCTSEngine::answered);
                                        let zero = choose|zero: W|
                                            #![trigger with_shares(moves@, shares@, zero, moves@.len())]
                                            call_ensures(A::zero, (&self.appraiser,), zero) && policy@ == with_shares(
                                                moves@,
                                                shares@,
                                                zero,
                                                moves@.len(),
                                            );
                                        assert(consulted(turn.before, turn.after, bb, depth, turn.moves, turn.score, Some(mv)));
                                        assert(call_ensures(A::clamped, (&e.appraiser, turn.score), note.worth));
                                        assert(e.softened(bb, turn.moves, scores, shares));
                                        assert(note.policy == with_shares(turn.moves, shares@, zero, turn.moves.len()));
                                    }
                                }
                                let rec = self.record(&bb, policy, worth);
                                proof {
                                    assert(end_of(start, line) == bb) by {
                                        reveal(on_line);
                                    }
                                    lemma_kept_note(a, start, line, first, notes, records@, true, mv, note, rec);
                                    lemma_engine_line_more(e, turns, depth, start, line, first, notes, turn, mv, note);
                                    turns = turns.push(turn);
                                    end = self.engine;
                                    notes = notes.push(note);
                                    lemma_on_line_step(start, open, line, bb, move_count as int, random_opening as int, mv);
                                    lemma_turn_parts(bb, mv);
                                    line = line.push(mv);
                                }
                                records.push(rec);
                                if play(&mut bb, &mv, Ghost(moves@)) {
                                    move_count = move_count + 1;
                                }
                            },
                        }
                    }
                },
            }
        }
        proof {
            assert(bb.wf()) by {
                reveal(board_ok);
            }
        }
        let (outcome, winner): (W, Option<Player>) = self.determine_outcome(&bb);
        proof {
            assert(are_records(a, start, line, notes, records@)) by {
                reveal(is_kept);
            }
        }
        let examples = self.finish_examples(records, outcome, Ghost(start), Ghost(line), Ghost(notes));
        let r = SelfPlayResult { examples, winner, move_count };
        proof {
            let g = Game { start, line, first, outcome, notes };
            reveal(on_line);
            reveal(is_kept);
            assert(self.engine.fixed().weights == old(self).engine.fixed().weights);
            assert(is_play(g, a, r, random_opening as int, max_moves as int, true));
            assert(old(self).is_alphabeta_game(
                *self,
                g,
                turns,
                end,
                r,
                depth,
                random_opening as int,
                max_moves as int,
            ));
        }
        r
    }

    /// The move of a match game: by tree search, or by alpha-beta with nothing
    /// remembered.
    #[verifier::spinoff_prover]
    fn match_move(
        &mut self,
        bb: &BitBoard,
        moves: &Vec<BitMove>,
        by_tree: bool,
        opponent_depth: u8,
        batch_size: u32,
    ) -> (r: Option<BitMove>)
        requires
            old(self).wf(),
            old(self).in_step(*bb),
            goes_on(*bb, moves@),
            board_ok(*bb, 0),
            batch_size > 0,
        ensures
            final(self).wf(),
            final(self).in_step(*bb),
            final(self).simulations == old(self).simulations,
            r matches Some(m) ==> is_legal(*bb, m),
            by_tree && r is None ==> crowded(*bb) || stands_still(*bb),
            by_tree ==> old(self).searches_batched(*final(self), *bb, batch_size as int, false),
            by_tree ==> (r matches Some(m) ==> exists|c: int|
                #![trigger is_favourite(final(self).tree.nodes@, c)]
                is_favourite(final(self).tree.nodes@, c) && m == final(self).tree.nodes@[c].bitmove),
            !by_tree ==> *final(self) == (MCTSEngine { engine: final(self).engine, ..*old(self) }) && match_answer(
                old(self).engine,
                final(self).engine,
                *bb,
                opponent_depth,
                r,
            ),
    {
        proof {
            assert(bb.wf()) by {
                reveal(board_ok);
            }
            assert(board_ok(*bb, 1)) by {
                reveal(goes_on);
            }
        }
        if by_tree {
            let result = self.search_batched(bb, batch_size, false);
            if result.best_move.is_some() {
                Some(self.most_visited_bitmove())
            } else {
                None
            }
        } else {
            self.engine.full_reset();
            let ghost reset = self.engine;
            let (score, mv): (i32, Option<BitMove>) = self.engine_move(bb, opponent_depth, moves);
            proof {
                assert(forgot(old(self).engine, reset));
                assert(consulted(reset, self.engine, *bb, opponent_depth, moves@, score, mv));
                reveal(match_answer);
            }
            mv
        }
    }

    /// Plays one game of a match between the tree search with the network and
    /// alpha-beta. The winner, if any.
    #[verifier::spinoff_prover]
    fn play_match_game(
        &mut self,
        mcts_is_white: bool,
        opponent_depth: u8,
        batch_size: u32,
        random_opening: usize,
        max_moves: usize,
    ) -> (r: Option<Player>)
        requires
            old(self).wf(),
            max_moves <= u32::MAX,
            batch_size > 0,
        ensures
            final(self).wf(),
            final(self).simulations == old(self).simulations,
            final(self).tree.nodes@.len() == 0,
            won_match_game(
                *old(self),
                *final(self),
                r,
                MatchRules { mcts_is_white, batch_size, depth: opponent_depth },
                random_opening as int,
                max_moves as int,
            ),
    {
        let ghost p = MatchRules { mcts_is_white, batch_size, depth: opponent_depth };
        self.engine.full_reset();
        self.clear_caches();
        self.clear_tree();
        let mut bb: BitBoard = self.random_start(random_opening);
        let ghost (start, open) = choose|start: BitBoard, open: Seq<BitMove>| #[trigger]
            opens_with(start, open, bb, random_opening as int) && drawn_line(old(self).rng.state, start, open)
                && self.rng.state == rolled(old(self).rng.state, open.len());
        let ghost first = open.len() as int;
        let ghost mut line = open;
        let ghost begin = *self;
        let ghost mut end = *self;
        let ghost mut turns: Seq<MatchTurn<S, W, A, O>> = Seq::empty();
        let mut move_count: u32 = 0;
        let mut over: bool = false;
        proof {
            assert(open.subrange(0, first) =~= open);
            lemma_on_line_start(start, open, bb, random_opening as int);
            lemma_match_line_start(p, begin, start, line);
        }
        while !over
            invariant
                self.wf(),
                self.simulations == old(self).simulations,
                self.in_step(bb),
                board_ok(bb, 0),
                first == open.len(),
                p == (MatchRules { mcts_is_white, batch_size, depth: opponent_depth }),
                match_line(p, turns, begin, end, start, line, first),
                !over ==> *self == end,
                on_line(start, open, line, bb, move_count as int, random_opening as int),
                over ==> if move_count == max_moves || stands_still(bb) {
                    *self == end
                } else if p.by_tree(bb) {
                    crowded(bb) && end.searches_batched(*self, bb, batch_size as int, false)
                } else {
                    *self == (MCTSEngine { engine: self.engine, ..end }) && match_answer(
                        end.engine,
                        self.engine,
                        bb,
                        opponent_depth,
                        None,
                    )
                },
                move_count <= max_moves <= u32::MAX,
                batch_size > 0,
            decreases
                    if over {
                        0int
                    } else {
                        2 + 2 * (max_moves - move_count) - if bb.awaiting_barrel {
                            1int
                        } else {
                            0
                        }
                    },
        {
            proof {
                assert(bb.wf()) by {
                    reveal(board_ok);
                }
            }
            match classify(&bb) {
                Leaf::Over(_) => {
                    over = true;
                },
                Leaf::Open(moves) => {
                    if move_count as usize >= max_moves {
                        over = true;
                    } else {
                        let white_turn: bool = bb.current_player == Player::White;
                        let ghost from = *self;
                        proof {
                            lemma_goes_on_stands(bb, moves@);
                        }
                        let found: Option<BitMove> = self.match_move(
                            &bb,
                            &moves,
                            white_turn == mcts_is_white,
                            opponent_depth,
                            batch_size,
                        );
                        match found {
                            None => {
                                over = true;
                            },
                            Some(mv) => {
                                proof {
                                    lemma_on_line_step(start, open, line, bb, move_count as int, random_opening as int, mv);
                                    lemma_turn_parts(bb, mv);
                                }
                                let ghost chosen = *self;
                                let ghost at = bb;
                                if self.advance(&mut bb, &mv, Ghost(moves@)) {
                                    move_count = move_count + 1;
                                }
                                proof {
                                    let turn = MatchTurn { from, chosen, to: *self };
                                    assert(turn.leads_to(p, at, mv)) by {
                                        reveal(MatchTurn::leads_to);
                                    }
                                    assert(end_of(start, line) == at) by {
                                        reveal(on_line);
                                    }
                                    lemma_match_line_more(p, turns, begin, start, line, first, turn, mv);
                                    turns = turns.push(turn);
                                    line = line.push(mv);
                                    end = *self;
                                }
                            },
                        }
                    }
                },
            }
        }
        let ghost last = *self;
        self.clear_tree();
        let winner: Option<Player> = bb.check_winner();
        proof {
            reveal(won_match_game);
            reveal(on_line);
            let g = MatchGame { start, line, first, turns, begin, end, last };
            assert(is_match_game(*old(self), g, *self, winner, p, random_opening as int, max_moves as int));
        }
        winner
    }

    /// The winners of a match's games, each played in the state that the one
    /// before it left; the tree search plays white in the even ones.
    pub open spec fn plays_match(
        &self,
        states: Seq<Self>,
        winners: Seq<Option<Player>>,
        batch_size: u32,
        depth: u8,
        opening: int,
        max_moves: int,
    ) -> bool {
        &&& states.len() == winners.len() + 1
        &&& states[0] == *self
        &&& forall|i: int|
            0 <= i < winners.len() ==> won_match_game(
                states[i],
                states[i + 1],
                #[trigger] winners[i],
                MatchRules { mcts_is_white: i % 2 == 0, batch_size, depth },
                opening,
                max_moves,
            )
    }

    /// Plays a match between the tree search with the network and alpha-beta,
    /// with alternating colours, and counts its wins, draws and losses.
    #[verifier::spinoff_prover]
    pub fn play_eval_match(
        &mut self,
        num_games: u32,
        opponent_depth: u8,
        batch_size: u32,
        random_opening: usize,
        max_moves: usize,
    ) -> (r: EvalMatchResult)
        requires
            old(self).wf(),
            max_moves <= u32::MAX,
            batch_size > 0,
        ensures
            final(self).wf(),
            final(self).simulations == old(self).simulations,
            exists|states: Seq<Self>, winners: Seq<Option<Player>>|
                #![trigger old(self).plays_match(states, winners, batch_size, opponent_depth, random_opening as int, max_moves as int)]
                old(self).plays_match(
                    states,
                    winners,
                    batch_size,
                    opponent_depth,
                    random_opening as int,
                    max_moves as int,
                ) && winners.len() == num_games && states.last() == *final(self) && counts_of(winners, r),
    {
        let ghost mut winners: Seq<Option<Player>> = Seq::empty();
        let ghost mut states: Seq<Self> = seq![*self];
        let mut r = EvalMatchResult { wins: 0, draws: 0, losses: 0 };
        let mut i: u32 = 0;
        while i < num_games
            invariant
                i <= num_games,
                self.wf(),
                self.simulations == old(self).simulations,
                max_moves <= u32::MAX,
                batch_size > 0,
                winners.len() == i,
                states.len() == i + 1,
                states.last() == *self,
                old(self).plays_match(
                    states,
                    winners,
                    batch_size,
                    opponent_depth,
                    random_opening as int,
                    max_moves as int,
                ),
                counts_of(winners, r),
                r.wins + r.draws + r.losses == i,
            decreases num_games - i,
        {
            let mcts_is_white: bool = i % 2 == 0;
            let winner: Option<Player> = self.play_match_game(
                mcts_is_white,
                opponent_depth,
                batch_size,
                random_opening,
                max_moves,
            );
            r.count(winner, mcts_is_white);
            proof {
                assert(winners.push(winner).drop_last() =~= winners);
                let more = winners.push(winner);
                let longer = states.push(*self);
                assert forall|k: int| 0 <= k < more.len() implies won_match_game(
                    longer[k],
                    longer[k + 1],
                    #[trigger] more[k],
                    MatchRules { mcts_is_white: k % 2 == 0, batch_size, depth: opponent_depth },
                    random_opening as int,
                    max_moves as int,
                ) by {
                    if k < winners.len() {
                        assert(more[k] == winners[k]);
                        assert(longer[k] == states[k] && longer[k + 1] == states[k + 1]);
                    }
                }
                winners = more;
                states = longer;
            }
            i = i + 1;
        }
        r
    }
}

/// How many games went this way for the tree search, white in the even ones:
/// won, drawn or lost.
pub open spec fn tally_of(winners: Seq<Option<Player>>) -> (int, int, int)
    decreases winners.len(),
{
    if winners.len() == 0 {
        (0, 0, 0)
    } else {
        let (w, d, l) = tally_of(winners.drop_last());
        match winners.last() {
            None => (w, d + 1, l),
            Some(p) => if (p == Player::White) == ((winners.len() - 1) % 2 == 0) {
                (w + 1, d, l)
            } else {
                (w, d, l + 1)
            },
        }
    }
}

/// The counts are those of the winners.
pub open spec fn counts_of(winners: Seq<Option<Player>>, r: EvalMatchResult) -> bool {
    tally_of(winners) == (r.wins as int, r.draws as int, r.losses as int)
}

impl EvalMatchResult {
    /// Counts a game for the side that the tree search played.
    #[verifier::spinoff_prover]
    pub fn count(&mut self, winner: Option<Player>, mcts_is_white: bool)
        requires
            old(self).wins < u32::MAX,
            old(self).draws < u32::MAX,
            old(self).losses < u32::MAX,
        ensures
            *final(self) == match winner {
                None => EvalMatchResult { draws: (old(self).draws + 1) as u32, ..*old(self) },
                Some(p) => if (p == Player::White) == mcts_is_white {
                    EvalMatchResult { wins: (old(self).wins + 1) as u32, ..*old(self) }
                } else {
                    EvalMatchResult { losses: (old(self).losses + 1) as u32, ..*old(self) }
                },
            },
    {
        match winner {
            None => {
                self.draws = self.draws + 1;
            },
            Some(p) => {
                if (p == Player::White) == mcts_is_white {
                    self.wins = self.wins + 1;
                } else {
                    self.losses = self.losses + 1;
                }
            },
        }
    }
}

} // verus!
