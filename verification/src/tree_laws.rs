//! What happens to the trees of a search, and how a game by tree search goes on.
use vstd::prelude::*;
use crate::bitboard::BitBoard;
use crate::bitmove::BitMove;
use crate::board::Player;
use crate::heuristic::{heuristic_of, EvalWeights};
use crate::judged::{gives_fresh, Event};
use crate::mcts::{crowded, is_favourite, MCTSEngine};
use crate::node::{board_ok, can_act, is_legal, keyed, lemma_next_player};
use crate::play_laws::{lemma_output, output_of};
use crate::race::RaceTable;
use crate::rng::{fraction_of, xorshift};
use crate::selfplay::{consulted, law_play_stays_sound, stood, Game, Note, SelfPlayResult};
use crate::subtree::{alike, is_subtree, kept};
use crate::tree::{children_ok, grown, is_child, linked, on_path, same_shape, MCTSNode, Tree};
use crate::tree_walk::{passed, Appraiser, Oracle, Step};
use crate::turns::{has_note, keeps_below, notes_full, EngineTurn, TreeRules, TreeTurn};

verus! {

/// A finished game is worth one if white has won it and minus one if black has. Any
/// other is worth what its evaluation gives, and has no winner.
pub proof fn law_outcomes_of_games<S: Copy, W: Copy, A: Appraiser<S, W>, O: Oracle<W>>(
    e: MCTSEngine<S, W, A, O>,
    bb: BitBoard,
    race: RaceTable,
    s: i32,
    r: (W, Option<Player>),
)
    requires
        call_ensures(MCTSEngine::<S, W, A, O>::determine_outcome, (&e, &bb), r),
        call_ensures(EvalWeights::evaluate, (&e.engine.weights, &bb, &race), s),
    ensures
        bb.white_scored == 4 ==> r.1 == Some(Player::White) && call_ensures(A::one, (&e.appraiser,), r.0),
        bb.white_scored < 4 && bb.black_scored == 4 ==> r.1 == Some(Player::Black) && exists|one: W|
            call_ensures(A::one, (&e.appraiser,), one) && #[trigger] call_ensures(A::negated, (&e.appraiser, one), r.0),
        bb.white_scored < 4 && bb.black_scored < 4 ==> r.1 is None && call_ensures(A::of_score, (&e.appraiser, s), r.0),
{
    assert(bb@.white_scored == bb.white_scored && bb@.black_scored == bb.black_scored);
    assert(s == heuristic_of(e.engine.weights, bb));
    assert(e.gives_end(bb, r.0));
}

/// A leaf where the game goes on is worth its evaluation if no network is asked and
/// nothing is remembered of it; what is found is remembered.
pub proof fn law_leaves_are_evaluated<S: Copy, W: Copy, A: Appraiser<S, W>, O: Oracle<W>>(
    e: MCTSEngine<S, W, A, O>,
    f: MCTSEngine<S, W, A, O>,
    node: int,
    bb: BitBoard,
    race: RaceTable,
    s: i32,
    value: W,
)
    requires
        e.assessed(f, node, bb, false, value),
        bb.white_scored < 4,
        bb.black_scored < 4,
        can_act(bb),
        board_ok(bb, 1),
        call_ensures(EvalWeights::evaluate, (&e.engine.weights, &bb, &race), s),
    ensures
        !e.heuristic_cache@.dom().contains(bb.hash) ==> call_ensures(A::of_score, (&e.appraiser, s), value),
        e.heuristic_cache@.dom().contains(bb.hash) ==> value == e.heuristic_cache@[bb.hash],
        f.heuristic_cache@.dom().contains(bb.hash) && f.heuristic_cache@[bb.hash] == value,
        f.log == e.log,
{
    assert(bb@.white_scored == bb.white_scored && bb@.black_scored == bb.black_scored);
    assert(s == heuristic_of(e.engine.weights, bb));
}

/// Where the network is asked of a leaf it is asked once, and a reply's worth is
/// the leaf's; without a reply the evaluation stands in.
pub proof fn law_networks_are_asked<S: Copy, W: Copy, A: Appraiser<S, W>, O: Oracle<W>>(
    e: MCTSEngine<S, W, A, O>,
    f: MCTSEngine<S, W, A, O>,
    node: int,
    bb: BitBoard,
    race: RaceTable,
    s: i32,
    value: W,
    planes: Seq<W>,
    reply: Option<(Seq<W>, W)>,
)
    requires
        e.assessed(f, node, bb, true, value),
        bb.white_scored < 4,
        bb.black_scored < 4,
        can_act(bb),
        board_ok(bb, 1),
        call_ensures(EvalWeights::evaluate, (&e.engine.weights, &bb, &race), s),
        f.log@.len() > 0,
        f.log@.last() == Event::One(planes, reply),
    ensures
        f.log@.len() == e.log@.len() + 1,
        reply matches Some((raw, v)) ==> value == v,
        reply is None ==> call_ensures(A::of_score, (&e.appraiser, s), value),
{
    assert(bb@.white_scored == bb.white_scored && bb@.black_scored == bb.black_scored);
    assert(s == heuristic_of(e.engine.weights, bb));
}

/// The children of a node stand for its moves in their order, not visited yet, each
/// with the side to move that follows on its move.
pub proof fn law_children_know_their_side<S: Copy>(nodes: Seq<MCTSNode<S>>, node: int, bb: BitBoard, moves: Seq<BitMove>, stats: Seq<S>, k: int)
    requires
        0 <= node < nodes.len(),
        0 <= k < moves.len(),
        nodes.len() + moves.len() <= usize::MAX,
        is_legal(bb, moves[k]),
    ensures
        ({
            let after = grown(nodes, node, moves, stats, bb.current_player == Player::White);
            let child = after[nodes.len() + k];
            &&& after.len() == nodes.len() + moves.len()
            &&& after[node].children_start == nodes.len() && after[node].children_count == moves.len()
            &&& child.parent == Some(node as usize)
            &&& child.bitmove == moves[k] && child.stats == stats[k]
            &&& child.visit_count == 0 && child.children_count == 0 && !child.is_terminal
            &&& child.player_is_white == (bb.played(moves[k]).current_player == Player::White)
        }),
{
    reveal(is_legal);
    lemma_next_player(bb, moves[k]);
}

/// Without a network every child of a newly opened leaf gets the same share.
#[verifier::spinoff_prover]
pub proof fn law_moves_share_alike<S: Copy, W: Copy, A: Appraiser<S, W>, O: Oracle<W>>(
    e: MCTSEngine<S, W, A, O>,
    f: MCTSEngine<S, W, A, O>,
    node: int,
    bb: BitBoard,
    value: W,
    asked: MCTSEngine<S, W, A, O>,
    moves: Seq<BitMove>,
    priors: Seq<W>,
    k: int,
)
    requires
        e.opens(f, node, bb, false, value, asked, moves, priors),
        0 <= node < e.tree.nodes@.len(),
        f.tree.nodes@.len() > e.tree.nodes@.len(),
        e.tree.nodes@.len() <= k < f.tree.nodes@.len(),
    ensures
        f.tree.nodes@.len() == e.tree.nodes@.len() + moves.len(),
        f.tree.nodes@[k].bitmove == moves[k - e.tree.nodes@.len()],
        exists|share: W|
            call_ensures(A::uniform, (&e.appraiser, moves.len() as usize), share) && #[trigger] call_ensures(
                A::fresh,
                (&e.appraiser, share),
                f.tree.nodes@[k].stats,
            ),
{
    let n = e.tree.nodes@.len() as int;
    let stats = choose|stats: Seq<S>|
        #![trigger gives_fresh(e.appraiser, moves.len(), priors, stats)]
        gives_fresh(e.appraiser, moves.len(), priors, stats) && f.tree.nodes@ == grown(
            e.tree.nodes@,
            node,
            moves,
            stats,
            bb.current_player == Player::White,
        );
    let share = choose|share: W| #[trigger]
        call_ensures(A::uniform, (&e.appraiser, moves.len() as usize), share) && priors == Seq::new(
            moves.len(),
            |i: int| share,
        );
    let i = k - n;
    assert(f.tree.nodes@[k].stats == stats[i]);
    assert(priors[i] == share);
    assert(call_ensures(A::fresh, (&e.appraiser, share), stats[i]));
}

/// A leaf that waits for the network's reply counts as three lost visits on its way
/// up, which are taken back when the reply is there: no count has changed then.
pub proof fn law_virtual_losses_are_taken_back<S, W>(
    a: Seq<MCTSNode<S>>,
    b: Seq<MCTSNode<S>>,
    c: Seq<MCTSNode<S>>,
    node: int,
    k: int,
)
    requires
        0 <= node < a.len(),
        0 <= k < a.len(),
        passed(a, b, node, Step::<W>::Debit.delta()),
        passed(b, c, node, Step::<W>::Restore.delta()),
    ensures
        on_path(a, node, k) && a[k].visit_count + 3 <= u32::MAX ==> b[k].visit_count == a[k].visit_count + 3,
        !on_path(a, node, k) ==> b[k].visit_count == a[k].visit_count,
        c[k].visit_count == a[k].visit_count,
{
    reveal(passed);
    lemma_same_path(a, b, node, k);
}

proof fn lemma_same_path<S>(a: Seq<MCTSNode<S>>, b: Seq<MCTSNode<S>>, node: int, k: int)
    requires
        same_shape(a, b),
        0 <= node < a.len(),
    ensures
        on_path(a, node, k) == on_path(b, node, k),
    decreases node,
{
    match a[node].parent {
        Some(p) => {
            if p < node {
                lemma_same_path(a, b, p as int, k);
            }
        },
        None => {},
    }
}

/// When a move is played, what is known of it stays: the root of the new tree has the
/// counts and worths that the move's child had, and as many children; without such a
/// child nothing is kept.
#[verifier::spinoff_prover]
pub proof fn law_played_moves_keep_their_tree<S>(before: Tree<S>, after: Tree<S>, m: BitMove)
    requires
        keeps_below(before, after, m),
    ensures
        after.nodes@.len() > 0 ==> exists|k: int|
            {
                &&& before.nodes@[0].children_start <= k < before.nodes@[0].children_start + before.nodes@[0].children_count
                &&& (#[trigger] before.nodes@[k]).bitmove.packed == m.packed
                &&& before.nodes@[k].bitmove.path@ == m.path@
                &&& after.nodes@[0].visit_count == before.nodes@[k].visit_count
                &&& after.nodes@[0].stats == before.nodes@[k].stats
                &&& after.nodes@[0].children_count == before.nodes@[k].children_count
                &&& forall|i: int|
                    0 <= i < after.nodes@[0].children_count ==> (#[trigger] after.nodes@[after.nodes@[0].children_start
                        + i]).visit_count == before.nodes@[before.nodes@[k].children_start + i].visit_count
            },
        after.nodes@.len() == 0 ==> forall|k: int|
            before.nodes@.len() > 0 && before.nodes@[0].children_start <= k < before.nodes@[0].children_start
                + before.nodes@[0].children_count ==> (#[trigger] before.nodes@[k]).bitmove.packed != m.packed
                || before.nodes@[k].bitmove.path@ != m.path@,
{
    reveal(keeps_below);
    reveal(is_subtree);
    let old_nodes = before.nodes@;
    let nodes = after.nodes@;
    if nodes.len() > 0 {
        let origin = choose|origin: Seq<int>| #[trigger]
            is_subtree(old_nodes, nodes, origin) && is_child(old_nodes, 0, origin[0]) && alike(
                old_nodes[origin[0]].bitmove,
                m,
            );
        let k = origin[0];
        assert(kept(old_nodes, nodes, origin, 0));
        assert forall|i: int| 0 <= i < nodes[0].children_count implies (#[trigger] nodes[nodes[0].children_start
            + i]).visit_count == old_nodes[old_nodes[k].children_start + i].visit_count by {
            let j = nodes[0].children_start + i;
            assert(is_child(nodes, 0, j));
            assert(origin[j] == old_nodes[k].children_start + i);
            reveal(linked);
            assert(children_ok(nodes, 0));
            assert(kept(old_nodes, nodes, origin, j));
        }
        assert(old_nodes[k].bitmove.packed == m.packed);
    } else if old_nodes.len() > 0 {
        assert forall|k: int|
            old_nodes[0].children_start <= k < old_nodes[0].children_start + old_nodes[0].children_count implies (
        #[trigger] old_nodes[k]).bitmove.packed != m.packed || old_nodes[k].bitmove.path@ != m.path@ by {
            assert(is_child(old_nodes, 0, k));
            assert(!alike(old_nodes[k].bitmove, m));
        }
    }
}

/// In the first turns a move is drawn: by the shares of the visits, or in a network
/// game by the visits at the game's temperature. From then on, and in a network game
/// at temperature zero from the first turn, it is the most visited one. The search
/// before it has as many simulations as a draw allows it.
#[verifier::spinoff_prover]
pub proof fn law_late_turns_take_the_most_visited<S: Copy, W: Copy, A: Appraiser<S, W>, O: Oracle<W>>(
    t: TreeTurn<S, W, A, O>,
    p: TreeRules<W>,
    b: BitBoard,
    turn: int,
    m: BitMove,
)
    requires
        t.leads_to(p, b, turn, m),
    ensures
        t.full ==> t.ready.simulations == p.full_sims,
        !t.full ==> t.ready.simulations == p.cheap_sims,
        p.always ==> t.full && t.ready.rng == t.from.rng,
        !p.always ==> t.ready.rng.state == xorshift(t.from.rng.state) && call_ensures(
            A::exceeds_fraction,
            (&t.from.appraiser, p.fraction, fraction_of(t.ready.rng.state)),
            t.full,
        ),
        t.to.root == b.played(m),
        turn < p.temp_moves && p.warm && p.batch_size is None ==> exists|one: W, k: int|
            {
                &&& #[trigger] t.thought.selects(t.chosen, t.moves, t.result.policy_target@, one, k)
                &&& call_ensures(A::one, (&t.thought.appraiser,), one)
                &&& m == t.moves[k]
            },
        turn < p.temp_moves && p.warm && p.batch_size is Some ==> exists|k: int|
            {
                &&& #[trigger] t.thought.samples(t.chosen, p.temperature, k)
                &&& m == t.thought.tree.nodes@[t.thought.tree.nodes@[0].children_start + k].bitmove
            },
        turn >= p.temp_moves || !p.warm ==> t.chosen.rng == t.thought.rng && exists|c: int|
            is_child(t.thought.tree.nodes@, 0, c) && m == (#[trigger] t.thought.tree.nodes@[c]).bitmove && forall|k: int|
                is_child(t.thought.tree.nodes@, 0, k) ==> (#[trigger] t.thought.tree.nodes@[k]).visit_count
                    <= t.thought.tree.nodes@[c].visit_count,
{
    reveal(TreeTurn::leads_to);
    let nodes = t.thought.tree.nodes@;
    if turn >= p.temp_moves || !p.warm {
        let c = choose|c: int|
            #![trigger is_favourite(nodes, c)]
            is_favourite(nodes, c) && m == nodes[c].bitmove;
        assert(m == nodes[c].bitmove);
    }
}

/// A game keeps an example of a position exactly if its search was a full one, with
/// the shares and the worth that the search reported.
pub proof fn law_full_searches_are_noted<S: Copy, W: Copy, A: Appraiser<S, W>, O: Oracle<W>>(
    notes: Seq<Note<W>>,
    turns: Seq<TreeTurn<S, W, A, O>>,
    first: int,
    k: int,
)
    requires
        notes_full(notes, turns, first),
        0 <= k < turns.len(),
    ensures
        turns[k].full <==> exists|i: int| 0 <= i < notes.len() && (#[trigger] notes[i]).at == first + k,
        forall|i: int|
            0 <= i < notes.len() && (#[trigger] notes[i]).at == first + k ==> notes[i].policy
                == turns[k].result.policy_target@ && notes[i].worth == turns[k].result.root_value,
{
    reveal(notes_full);
    assert(turns[k].full == has_note(notes, first + k));
}

/// A move drawn from a policy is drawn from the shares that the policy gives the
/// moves, with one number; if no share counts, every move has the same chance.
#[verifier::spinoff_prover]
pub proof fn law_moves_are_drawn_by_their_shares<S: Copy, W: Copy, A: Appraiser<S, W>, O: Oracle<W>>(
    e: MCTSEngine<S, W, A, O>,
    f: MCTSEngine<S, W, A, O>,
    moves: Seq<BitMove>,
    policy: Seq<W>,
    temperature: W,
    k: int,
)
    requires
        e.selects(f, moves, policy, temperature, k),
        policy.len() == 1332,
        moves.len() > 0,
        forall|i: int| 0 <= i < moves.len() ==> (#[trigger] moves[i]).valid(),
    ensures
        exists|shares: Vec<W>, mass: bool|
            {
                &&& #[trigger] call_ensures(A::has_mass, (&e.appraiser, &shares, temperature), mass)
                &&& shares@.len() == moves.len()
                &&& forall|i: int| 0 <= i < moves.len() ==> #[trigger] shares@[i] == policy[output_of(moves[i]@)]
                &&& !mass ==> k == f.rng.state as int % moves.len() as int
                &&& mass && k < moves.len() - 1 ==> call_ensures(
                    A::pick_share,
                    (&e.appraiser, &shares, temperature, fraction_of(f.rng.state)),
                    k as usize,
                )
            },
{
    let (shares, mass) = choose|shares: Vec<W>, mass: bool|
        #![trigger call_ensures(A::has_mass, (&e.appraiser, &shares, temperature), mass)]
        {
            &&& e.shares_of(moves, policy, shares@)
            &&& call_ensures(A::has_mass, (&e.appraiser, &shares, temperature), mass)
            &&& if mass {
                exists|pick: usize| #[trigger]
                    call_ensures(
                        A::pick_share,
                        (&e.appraiser, &shares, temperature, fraction_of(f.rng.state)),
                        pick,
                    ) && k == if pick < moves.len() {
                        pick as int
                    } else {
                        moves.len() - 1
                    }
            } else {
                k == f.rng.state as int % moves.len() as int
            }
        };
    assert forall|i: int| 0 <= i < moves.len() implies #[trigger] shares@[i] == policy[output_of(moves[i]@)] by {
        lemma_output(moves[i]);
    }
}

/// The policy of a turn by alpha-beta follows the evaluations of the positions behind
/// the moves, each as the side to move sees it.
#[verifier::spinoff_prover]
pub proof fn law_policies_follow_evaluations<S: Copy, W: Copy, A: Appraiser<S, W>, O: Oracle<W>>(
    e: MCTSEngine<S, W, A, O>,
    b: BitBoard,
    moves: Seq<BitMove>,
    scores: Vec<i32>,
    shares: Vec<W>,
    i: int,
    race: RaceTable,
    s: i32,
)
    requires
        e.softened(b, moves, scores, shares),
        0 <= i < moves.len(),
        call_ensures(EvalWeights::evaluate, (&e.engine.weights, &b.played(moves[i]), &race), s),
    ensures
        call_ensures(A::soft_policy, (&e.appraiser, &scores), shares),
        scores@.len() == moves.len(),
        b.current_player == Player::White ==> scores@[i] == s,
        b.current_player == Player::Black ==> scores@[i] == -s,
{
    reveal(MCTSEngine::softened);
    let c = b.played(moves[i]);
    assert(s == heuristic_of(e.engine.weights, c));
    assert(c@.white_scored == c.white_scored && c@.black_scored == c.black_scored);
    assert(scores@[i] == scores@[i]);
}

/// A turn by alpha-beta is noted with the score of its search.
pub proof fn law_searches_are_noted<S: Copy, W: Copy, A: Appraiser<S, W>, O: Oracle<W>>(
    e: MCTSEngine<S, W, A, O>,
    t: EngineTurn,
    b: BitBoard,
    depth: u8,
    m: BitMove,
    note: Note<W>,
)
    requires
        e.answered(t, b, depth, m, note),
    ensures
        call_ensures(A::clamped, (&e.appraiser, t.score), note.worth),
        t.moves.contains(m),
{
    reveal(MCTSEngine::answered);
    reveal(consulted);
}

/// A move drawn by visits is drawn from the visits of the root's children, with one
/// number; if there are none yet it is the first.
#[verifier::spinoff_prover]
pub proof fn law_moves_are_drawn_by_their_visits<S: Copy, W: Copy, A: Appraiser<S, W>, O: Oracle<W>>(
    e: MCTSEngine<S, W, A, O>,
    f: MCTSEngine<S, W, A, O>,
    temperature: W,
    k: int,
    c: int,
)
    requires
        e.samples(f, temperature, k),
        0 <= c < e.tree.nodes@[0].children_count,
    ensures
        0 <= k < e.tree.nodes@[0].children_count,
        e.tree.nodes@[e.tree.nodes@[0].children_start + c].visit_count > 0 ==> f.rng.state == xorshift(e.rng.state)
            && exists|v: Vec<u32>, pick: usize|
            {
                &&& #[trigger] call_ensures(
                    A::pick_visits,
                    (&e.appraiser, &v, temperature, fraction_of(f.rng.state)),
                    pick,
                )
                &&& v@.len() == e.tree.nodes@[0].children_count
                &&& forall|i: int|
                    0 <= i < v@.len() ==> #[trigger] v@[i] == e.tree.nodes@[e.tree.nodes@[0].children_start + i].visit_count
                &&& pick < v@.len() ==> k == pick
            },
        (forall|i: int|
            0 <= i < e.tree.nodes@[0].children_count ==> (#[trigger] e.tree.nodes@[e.tree.nodes@[0].children_start
                + i]).visit_count == 0) ==> k == 0 && f.rng == e.rng,
{
    let nodes = e.tree.nodes@;
    let visits = Seq::new(nodes[0].children_count as nat, |i: int| nodes[nodes[0].children_start + i].visit_count);
    if nodes[nodes[0].children_start + c].visit_count > 0 {
        assert(visits[c] > 0);
    }
    if forall|i: int| 0 <= i < nodes[0].children_count ==> (#[trigger] nodes[nodes[0].children_start + i]).visit_count == 0 {
        assert forall|i: int| 0 <= i < visits.len() implies visits[i] == 0 by {
            assert(nodes[nodes[0].children_start + i].visit_count == 0);
        }
    }
}

/// A game by tree search goes on while it may: unless its turns are used up, or a
/// position has more moves than a tree may have nodes, it ends with a winner or
/// where nobody can move. It counts the turns that the board counts after the
/// opening.
#[verifier::spinoff_prover]
pub proof fn law_games_go_on<S: Copy, W: Copy, A: Appraiser<S, W>, O: Oracle<W>>(
    e: MCTSEngine<S, W, A, O>,
    g: Game<W>,
    p: TreeRules<W>,
    turns: Seq<TreeTurn<S, W, A, O>>,
    begin: MCTSEngine<S, W, A, O>,
    end: MCTSEngine<S, W, A, O>,
    last: MCTSEngine<S, W, A, O>,
    after: MCTSEngine<S, W, A, O>,
    r: SelfPlayResult<W>,
    opening: int,
    max_moves: int,
)
    requires
        e.is_tree_game(g, p, turns, begin, end, last, after, r, opening, max_moves),
        board_ok(g.end(), 1),
        can_act(g.end()),
        !crowded(g.end()),
    ensures
        r.move_count <= max_moves,
        r.move_count < max_moves ==> r.winner is Some,
        r.winner == Some(Player::White) <==> g.end().white_scored == 4,
        r.winner is Some ==> g.end().white_scored == 4 || g.end().black_scored == 4,
        keyed(g.start) && g.start.move_count + g.line.len() < u32::MAX && g.start.halfmove_clock + g.line.len() < u16::MAX
            ==> g.end().move_count == stood(g.start, g.line, g.first).move_count + r.move_count,
{
    let b = g.end();
    assert(b@.white_scored == b.white_scored && b@.black_scored == b.black_scored);
    if keyed(g.start) && g.start.move_count + g.line.len() < u32::MAX && g.start.halfmove_clock + g.line.len() < u16::MAX {
        law_play_stays_sound(g.start, g.line);
        let open = g.line.subrange(0, g.first);
        law_play_stays_sound(g.start, open);
    }
}

/// Noise goes to the children of the root, each with its own, and to no other node.
#[verifier::spinoff_prover]
pub proof fn law_noise_goes_to_the_first_moves<S: Copy, W: Copy, A: Appraiser<S, W>, O: Oracle<W>>(
    e: MCTSEngine<S, W, A, O>,
    f: MCTSEngine<S, W, A, O>,
    noise: Seq<W>,
    k: int,
)
    requires
        e.noised(f),
        e.tree.nodes@[0].children_count > 0,
        f.log@.len() > 0,
        f.log@.last() == Event::Noise(noise),
        0 <= k < e.tree.nodes@.len(),
    ensures
        f.log@.len() == e.log@.len() + 1,
        ({
            let first = e.tree.nodes@[0].children_start as int;
            let i = k - first;
            if 0 <= i < e.tree.nodes@[0].children_count && i < noise.len() {
                call_ensures(A::mix, (&e.appraiser, e.tree.nodes@[k].stats, noise[i]), f.tree.nodes@[k].stats)
            } else {
                f.tree.nodes@[k].stats == e.tree.nodes@[k].stats
            }
        }),
        f.tree.nodes@[k].visit_count == e.tree.nodes@[k].visit_count,
        f.tree.nodes@[k].bitmove == e.tree.nodes@[k].bitmove,
{
    assert(f.tree.nodes@[k] == f.tree.nodes@[k]);
}

/// An only move is not searched: it counts as visited once and nothing else changes.
pub proof fn law_only_moves_need_no_search<S: Copy, W: Copy, A: Appraiser<S, W>, O: Oracle<W>>(
    e: MCTSEngine<S, W, A, O>,
    f: MCTSEngine<S, W, A, O>,
    network: bool,
    k: int,
)
    requires
        e.finishes(f, network, false),
        e.tree.nodes@[0].children_count == 1,
        e.tree.nodes@[0].children_start < e.tree.nodes@.len(),
        0 <= k < e.tree.nodes@.len(),
    ensures
        k == e.tree.nodes@[0].children_start ==> f.tree.nodes@[k].visit_count == 1,
        k != e.tree.nodes@[0].children_start ==> f.tree.nodes@[k] == e.tree.nodes@[k],
        f.tree.nodes@.len() == e.tree.nodes@.len(),
        f.log == e.log,
{
}

} // verus!
