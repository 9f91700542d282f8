//! The turns of whole games: which state each began in, what was searched, and
//! how its move was chosen.
use vstd::prelude::*;
use crate::bitboard::BitBoard;
use crate::bitmove::BitMove;
use crate::board::Player;
use crate::engine::{BitBoardEngine, NoOutput};
use crate::mcts::{is_favourite, MCTSEngine, MCTSSearchResult};
use crate::rng::xorshift;
use crate::selfplay::{consulted, end_of, turns_of, Note};
use crate::subtree::{alike, is_subtree};
use crate::tree::{goes_on, is_child, Tree};
use crate::tree_walk::{Appraiser, Oracle};

verus! {

/// The state of the generator after `n` draws.
pub open spec fn rolled(state: u64, n: nat) -> u64
    decreases n,
{
    if n == 0 {
        state
    } else {
        xorshift(rolled(state, (n - 1) as nat))
    }
}

/// The move is the one of some list of the position's moves that a drawn number
/// falls on.
pub open spec fn drawn_move(b: BitBoard, drawn: u64, m: BitMove) -> bool {
    exists|moves: Seq<BitMove>| #[trigger] goes_on(b, moves) && moves.len() > 0 && m == moves[drawn as int % moves.len() as int]
}

/// Every move of the line was drawn, one number each.
pub open spec fn drawn_line(state: u64, start: BitBoard, line: Seq<BitMove>) -> bool
    decreases line.len(),
{
    line.len() > 0 ==> drawn_line(state, start, line.drop_last()) && drawn_move(
        end_of(start, line.drop_last()),
        rolled(state, line.len()),
        line.last(),
    )
}

/// One more drawn move.
#[verifier::spinoff_prover]
pub(crate) proof fn lemma_drawn_more(state: u64, start: BitBoard, line: Seq<BitMove>, moves: Seq<BitMove>, m: BitMove)
    requires
        drawn_line(state, start, line),
        goes_on(end_of(start, line), moves),
        moves.len() > 0,
        m == moves[xorshift(rolled(state, line.len())) as int % moves.len() as int],
    ensures
        drawn_line(state, start, line.push(m)),
        rolled(state, line.push(m).len()) == xorshift(rolled(state, line.len())),
{
    assert(line.push(m).drop_last() =~= line);
}

/// What a tree keeps when a move is played: what is below the root's child with
/// that move, or nothing if there is no such child.
#[verifier::opaque]
pub open spec fn keeps_below<S>(before: Tree<S>, after: Tree<S>, m: BitMove) -> bool {
    if before.nodes@.len() > 0 && exists|k: int| #[trigger] is_child(before.nodes@, 0, k) && alike(before.nodes@[k].bitmove, m) {
        exists|origin: Seq<int>| #[trigger]
            is_subtree(before.nodes@, after.nodes@, origin) && is_child(before.nodes@, 0, origin[0]) && alike(
                before.nodes@[origin[0]].bitmove,
                m,
            )
    } else {
        after.nodes@.len() == 0
    }
}

/// How a game by tree search is played: by batches or not, up to which turn
/// moves are drawn and how, when a search is a full one, and the simulations of
/// full and cheap searches.
pub struct TreeRules<W> {
    pub batch_size: Option<u32>,
    pub temp_moves: int,
    pub temperature: W,
    pub fraction: W,
    pub always: bool,
    pub warm: bool,
    pub full_sims: u32,
    pub cheap_sims: u32,
}

/// A part of a turn by tree search: the states before it, with the simulations
/// set, after the search, after the choice and after the move; whether the
/// search was a full one, the legal moves, and the search's result.
pub struct TreeTurn<S: Copy, W: Copy, A: Appraiser<S, W>, O: Oracle<W>> {
    pub from: MCTSEngine<S, W, A, O>,
    pub ready: MCTSEngine<S, W, A, O>,
    pub thought: MCTSEngine<S, W, A, O>,
    pub chosen: MCTSEngine<S, W, A, O>,
    pub to: MCTSEngine<S, W, A, O>,
    pub full: bool,
    pub moves: Seq<BitMove>,
    pub result: MCTSSearchResult<W>,
}

impl<S: Copy, W: Copy, A: Appraiser<S, W>, O: Oracle<W>> TreeTurn<S, W, A, O> {
    /// The move is the one that the search and the rules lead to: the search is
    /// full or cheap as the draw says, and its move is drawn in the first turns,
    /// else the most visited.
    #[verifier::opaque]
    pub open spec fn leads_to(self, p: TreeRules<W>, b: BitBoard, turn: int, m: BitMove) -> bool {
        &&& goes_on(b, self.moves)
        &&& self.from.decides_full(MCTSEngine { rng: self.ready.rng, ..self.from }, p.always, p.fraction, self.full)
        &&& self.ready == (MCTSEngine {
            rng: self.ready.rng,
            simulations: if self.full {
                p.full_sims
            } else {
                p.cheap_sims
            },
            ..self.from
        })
        &&& MCTSEngine::thinks(self.from.appraiser, b, p.batch_size, self.ready, self.thought, self.result)
        &&& self.thought.chooses(
            self.chosen,
            self.moves,
            self.result.policy_target@,
            p.batch_size is Some,
            turn < p.temp_moves && p.warm,
            p.temperature,
            m,
        )
        &&& self.to == (MCTSEngine { tree: self.to.tree, root: b.played(m), ..self.chosen })
        &&& keeps_below(self.chosen.tree, self.to.tree, m)
    }
}

/// Every move of the line after the opening is the one that its turn leads to,
/// and each turn begins in the state that the one before it left.
#[verifier::opaque]
pub open spec fn tree_line<S: Copy, W: Copy, A: Appraiser<S, W>, O: Oracle<W>>(
    p: TreeRules<W>,
    turns: Seq<TreeTurn<S, W, A, O>>,
    begin: MCTSEngine<S, W, A, O>,
    end: MCTSEngine<S, W, A, O>,
    start: BitBoard,
    line: Seq<BitMove>,
    first: int,
) -> bool
    decreases turns.len(),
{
    &&& line.len() == first + turns.len()
    &&& if turns.len() == 0 {
        end == begin
    } else {
        let t = turns.last();
        let before = line.drop_last();
        &&& tree_line(p, turns.drop_last(), begin, t.from, start, before, first)
        &&& t.leads_to(p, end_of(start, before), turns_of(before) - turns_of(before.subrange(0, first)), line.last())
        &&& end == t.to
    }
}

#[verifier::spinoff_prover]
pub(crate) proof fn lemma_tree_line_start<S: Copy, W: Copy, A: Appraiser<S, W>, O: Oracle<W>>(
    p: TreeRules<W>,
    begin: MCTSEngine<S, W, A, O>,
    start: BitBoard,
    line: Seq<BitMove>,
)
    ensures
        tree_line(p, Seq::empty(), begin, begin, start, line, line.len() as int),
{
    reveal(tree_line);
}

/// One more turn.
#[verifier::spinoff_prover]
pub(crate) proof fn lemma_tree_line_more<S: Copy, W: Copy, A: Appraiser<S, W>, O: Oracle<W>>(
    p: TreeRules<W>,
    turns: Seq<TreeTurn<S, W, A, O>>,
    begin: MCTSEngine<S, W, A, O>,
    start: BitBoard,
    line: Seq<BitMove>,
    first: int,
    t: TreeTurn<S, W, A, O>,
    m: BitMove,
)
    requires
        tree_line(p, turns, begin, t.from, start, line, first),
        t.leads_to(p, end_of(start, line), turns_of(line) - turns_of(line.subrange(0, first)), m),
    ensures
        tree_line(p, turns.push(t), begin, t.to, start, line.push(m), first),
{
    assert(line.push(m).drop_last() =~= line);
    assert(turns.push(t).drop_last() =~= turns);
    reveal(tree_line);
}

/// A search from where a game ended that found no move, full or cheap as the
/// draw said.
#[verifier::opaque]
pub open spec fn gives_up<S: Copy, W: Copy, A: Appraiser<S, W>, O: Oracle<W>>(
    p: TreeRules<W>,
    from: MCTSEngine<S, W, A, O>,
    after: MCTSEngine<S, W, A, O>,
    b: BitBoard,
) -> bool {
    exists|ready: MCTSEngine<S, W, A, O>, full: bool, result: MCTSSearchResult<W>|
        #![trigger MCTSEngine::thinks(from.appraiser, b, p.batch_size, ready, after, result), from.decides_full(MCTSEngine { rng: ready.rng, ..from }, p.always, p.fraction, full)]
        {
            &&& from.decides_full(MCTSEngine { rng: ready.rng, ..from }, p.always, p.fraction, full)
            &&& ready == (MCTSEngine {
                rng: ready.rng,
                simulations: if full {
                    p.full_sims
                } else {
                    p.cheap_sims
                },
                ..from
            })
            &&& MCTSEngine::thinks(from.appraiser, b, p.batch_size, ready, after, result)
            &&& result.best_move is None
        }
}

/// There is a note of the position after `at` moves.
pub open spec fn has_note<W>(notes: Seq<Note<W>>, at: int) -> bool {
    exists|i: int| 0 <= i < notes.len() && (#[trigger] notes[i]).at == at
}

/// The notes are those of the full searches, and of no others: the shares of the
/// visits, and the mean worth of the root.
#[verifier::opaque]
pub open spec fn notes_full<S: Copy, W: Copy, A: Appraiser<S, W>, O: Oracle<W>>(
    notes: Seq<Note<W>>,
    turns: Seq<TreeTurn<S, W, A, O>>,
    first: int,
) -> bool {
    &&& forall|i: int|
        0 <= i < notes.len() ==> {
            let k = (#[trigger] notes[i]).at - first;
            0 <= k < turns.len() && notes[i].policy == turns[k].result.policy_target@ && notes[i].worth
                == turns[k].result.root_value
        }
    &&& forall|k: int| 0 <= k < turns.len() ==> (#[trigger] turns[k]).full == has_note(notes, first + k)
}

#[verifier::spinoff_prover]
pub(crate) proof fn lemma_notes_full_start<S: Copy, W: Copy, A: Appraiser<S, W>, O: Oracle<W>>(first: int)
    ensures
        notes_full::<S, W, A, O>(Seq::empty(), Seq::empty(), first),
{
    reveal(notes_full);
}

/// One more turn, with a note if its search was full.
#[verifier::spinoff_prover]
pub(crate) proof fn lemma_notes_full_more<S: Copy, W: Copy, A: Appraiser<S, W>, O: Oracle<W>>(
    notes: Seq<Note<W>>,
    turns: Seq<TreeTurn<S, W, A, O>>,
    first: int,
    t: TreeTurn<S, W, A, O>,
    note: Note<W>,
)
    requires
        notes_full(notes, turns, first),
        t.full ==> note.at == first + turns.len() && note.policy == t.result.policy_target@ && note.worth == t.result.root_value,
    ensures
        t.full ==> notes_full(notes.push(note), turns.push(t), first),
        !t.full ==> notes_full(notes, turns.push(t), first),
{
    reveal(notes_full);
    let all = turns.push(t);
    let more = if t.full {
        notes.push(note)
    } else {
        notes
    };
    assert forall|i: int| 0 <= i < more.len() implies {
        let k = (#[trigger] more[i]).at - first;
        0 <= k < all.len() && more[i].policy == all[k].result.policy_target@ && more[i].worth == all[k].result.root_value
    } by {
        if i < notes.len() {
            assert(more[i] == notes[i]);
            let k = notes[i].at - first;
            assert(all[k] == turns[k]);
        }
    }
    assert forall|k: int| 0 <= k < all.len() implies (#[trigger] all[k]).full == has_note(more, first + k) by {
        if k < turns.len() {
            assert(all[k] == turns[k]);
            if turns[k].full {
                let i = choose|i: int| 0 <= i < notes.len() && (#[trigger] notes[i]).at == first + k;
                assert(more[i] == notes[i]);
            }
            if has_note(more, first + k) {
                let i = choose|i: int| 0 <= i < more.len() && (#[trigger] more[i]).at == first + k;
                assert(i < notes.len() ==> more[i] == notes[i]);
                assert(has_note(notes, first + k));
            }
        } else {
            if t.full {
                assert(more[notes.len() as int].at == first + k);
            }
            if has_note(more, first + k) && !t.full {
                let i = choose|i: int| 0 <= i < notes.len() && (#[trigger] notes[i]).at == first + k;
                assert(notes[i].at - first < turns.len());
            }
        }
    }
}

/// A part of a turn by alpha-beta: the engine before and after it was asked, the
/// legal moves, and the score.
pub struct EngineTurn {
    pub before: BitBoardEngine<NoOutput>,
    pub after: BitBoardEngine<NoOutput>,
    pub moves: Seq<BitMove>,
    pub score: i32,
}

/// Every move of the line after the opening is the engine's answer, the engine
/// goes on from turn to turn, and every position is noted: its policy follows the
/// heuristic scores of the positions behind the moves, and its worth is the
/// search's score.
#[verifier::opaque]
pub open spec fn engine_line<S: Copy, W: Copy, A: Appraiser<S, W>, O: Oracle<W>>(
    e: MCTSEngine<S, W, A, O>,
    turns: Seq<EngineTurn>,
    end: BitBoardEngine<NoOutput>,
    depth: u8,
    start: BitBoard,
    line: Seq<BitMove>,
    first: int,
    notes: Seq<Note<W>>,
) -> bool
    decreases turns.len(),
{
    &&& line.len() == first + turns.len()
    &&& notes.len() == turns.len()
    &&& if turns.len() == 0 {
        end == e.engine
    } else {
        let t = turns.last();
        let before = line.drop_last();
        &&& engine_line(e, turns.drop_last(), t.before, depth, start, before, first, notes.drop_last())
        &&& e.answered(t, end_of(start, before), depth, line.last(), notes.last())
        &&& end == t.after
    }
}

#[verifier::spinoff_prover]
pub(crate) proof fn lemma_engine_line_start<S: Copy, W: Copy, A: Appraiser<S, W>, O: Oracle<W>>(
    e: MCTSEngine<S, W, A, O>,
    depth: u8,
    start: BitBoard,
    line: Seq<BitMove>,
)
    ensures
        engine_line(e, Seq::empty(), e.engine, depth, start, line, line.len() as int, Seq::empty()),
{
    reveal(engine_line);
}

/// One more turn.
#[verifier::spinoff_prover]
pub(crate) proof fn lemma_engine_line_more<S: Copy, W: Copy, A: Appraiser<S, W>, O: Oracle<W>>(
    e: MCTSEngine<S, W, A, O>,
    turns: Seq<EngineTurn>,
    depth: u8,
    start: BitBoard,
    line: Seq<BitMove>,
    first: int,
    notes: Seq<Note<W>>,
    t: EngineTurn,
    m: BitMove,
    note: Note<W>,
)
    requires
        engine_line(e, turns, t.before, depth, start, line, first, notes),
        e.answered(t, end_of(start, line), depth, m, note),
    ensures
        engine_line(e, turns.push(t), t.after, depth, start, line.push(m), first, notes.push(note)),
{
    assert(line.push(m).drop_last() =~= line);
    assert(turns.push(t).drop_last() =~= turns);
    assert(notes.push(note).drop_last() =~= notes);
    reveal(engine_line);
}

/// A part of a turn of a match: the states before it, after the choice and after
/// the move.
pub struct MatchTurn<S: Copy, W: Copy, A: Appraiser<S, W>, O: Oracle<W>> {
    pub from: MCTSEngine<S, W, A, O>,
    pub chosen: MCTSEngine<S, W, A, O>,
    pub to: MCTSEngine<S, W, A, O>,
}

/// The players of a match: the side of the tree search, its batches, and the
/// depth of alpha-beta.
pub struct MatchRules {
    pub mcts_is_white: bool,
    pub batch_size: u32,
    pub depth: u8,
}

impl MatchRules {
    /// It is the tree search's turn.
    pub open spec fn by_tree(self, b: BitBoard) -> bool {
        (b.current_player == Player::White) == self.mcts_is_white
    }
}

/// An engine that forgot everything but its settings.
pub open spec fn forgot(e: BitBoardEngine<NoOutput>, fresh: BitBoardEngine<NoOutput>) -> bool {
    &&& fresh.is_fresh()
    &&& fresh.eval_cache.generation == (e.eval_cache.generation + 1) % 256
    &&& fresh.fixed() == (crate::engine::Fixed { game_history: Seq::empty(), ..e.fixed() })
    &&& fresh.search_stopped == e.search_stopped
    &&& fresh.deadline == e.deadline
    &&& fresh.nodes_since_check == e.nodes_since_check
}

/// The alpha-beta player of a match asked for a move: with nothing remembered it
/// answers `mv`.
#[verifier::opaque]
pub open spec fn match_answer(
    e: BitBoardEngine<NoOutput>,
    after: BitBoardEngine<NoOutput>,
    b: BitBoard,
    depth: u8,
    mv: Option<BitMove>,
) -> bool {
    exists|fresh: BitBoardEngine<NoOutput>, moves: Seq<BitMove>, score: i32|
        #![trigger consulted(fresh, after, b, depth, moves, score, mv)]
        forgot(e, fresh) && goes_on(b, moves) && consulted(fresh, after, b, depth, moves, score, mv)
}

impl<S: Copy, W: Copy, A: Appraiser<S, W>, O: Oracle<W>> MatchTurn<S, W, A, O> {
    /// The move is the one of the player whose turn it is: the most visited of
    /// the tree search, or the answer of alpha-beta.
    #[verifier::opaque]
    pub open spec fn leads_to(self, p: MatchRules, b: BitBoard, m: BitMove) -> bool {
        &&& if p.by_tree(b) {
            &&& self.from.searches_batched(self.chosen, b, p.batch_size as int, false)
            &&& exists|c: int|
                #![trigger is_favourite(self.chosen.tree.nodes@, c)]
                is_favourite(self.chosen.tree.nodes@, c) && m == self.chosen.tree.nodes@[c].bitmove
        } else {
            &&& self.chosen == (MCTSEngine { engine: self.chosen.engine, ..self.from })
            &&& match_answer(self.from.engine, self.chosen.engine, b, p.depth, Some(m))
        }
        &&& self.to == (MCTSEngine { tree: self.to.tree, root: b.played(m), ..self.chosen })
        &&& keeps_below(self.chosen.tree, self.to.tree, m)
    }
}

/// Every move of the line after the opening is that of the player whose turn it
/// is, and each turn begins in the state that the one before it left.
#[verifier::opaque]
pub open spec fn match_line<S: Copy, W: Copy, A: Appraiser<S, W>, O: Oracle<W>>(
    p: MatchRules,
    turns: Seq<MatchTurn<S, W, A, O>>,
    begin: MCTSEngine<S, W, A, O>,
    end: MCTSEngine<S, W, A, O>,
    start: BitBoard,
    line: Seq<BitMove>,
    first: int,
) -> bool
    decreases turns.len(),
{
    &&& line.len() == first + turns.len()
    &&& if turns.len() == 0 {
        end == begin
    } else {
        let t = turns.last();
        let before = line.drop_last();
        &&& match_line(p, turns.drop_last(), begin, t.from, start, before, first)
        &&& t.leads_to(p, end_of(start, before), line.last())
        &&& end == t.to
    }
}

#[verifier::spinoff_prover]
pub(crate) proof fn lemma_match_line_start<S: Copy, W: Copy, A: Appraiser<S, W>, O: Oracle<W>>(
    p: MatchRules,
    begin: MCTSEngine<S, W, A, O>,
    start: BitBoard,
    line: Seq<BitMove>,
)
    ensures
        match_line(p, Seq::empty(), begin, begin, start, line, line.len() as int),
{
    reveal(match_line);
}

/// One more turn.
#[verifier::spinoff_prover]
pub(crate) proof fn lemma_match_line_more<S: Copy, W: Copy, A: Appraiser<S, W>, O: Oracle<W>>(
    p: MatchRules,
    turns: Seq<MatchTurn<S, W, A, O>>,
    begin: MCTSEngine<S, W, A, O>,
    start: BitBoard,
    line: Seq<BitMove>,
    first: int,
    t: MatchTurn<S, W, A, O>,
    m: BitMove,
)
    requires
        match_line(p, turns, begin, t.from, start, line, first),
        t.leads_to(p, end_of(start, line), m),
    ensures
        match_line(p, turns.push(t), begin, t.to, start, line.push(m), first),
{
    assert(line.push(m).drop_last() =~= line);
    assert(turns.push(t).drop_last() =~= turns);
    reveal(match_line);
}

} // verus!
