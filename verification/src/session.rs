//! The engine as a player of boards: searches with their statistics, table
//! lookups and evaluations.
use vstd::prelude::*;
use crate::bitboard::BitBoard;
use crate::bitmove::BitMove;
use crate::board::{Board, Move, Player};
use crate::clock::lower;
use crate::convert::law_bitboard_is_its_view;
use crate::deepening::{lemma_deepen_again, lemma_deepen_start, proven_win, searchable};
use crate::engine::{BitBoardEngine, OutputLayer, WIN_BOUND};
use crate::forced::lemma_proves_mild;
use crate::heuristic::{heuristic_of, race_distances, races_of};
use crate::phase::{is_black_win, is_white_win, win_dist};
use crate::root_walk::{deepens, held_sum, lemma_reruns_more, lemma_reruns_start, reruns, Iteration, Run};
use crate::tt::shallower;

verus! {

/// The result of a search: the best move, the score from white's point of
/// view, and the statistics.
pub struct SearchResult {
    pub best_move: Option<Move>,
    pub score: i32,
    pub nodes_searched: u64,
    pub cutoffs: u64,
    pub tt_hits: u64,
    pub quiesce_nodes: u64,
    /// The deepest whole iteration.
    pub depth: u8,
    /// The search was ended from outside.
    pub was_stopped: bool,
}

/// The board stands for a position that can be searched.
pub open spec fn stands_for(board: Board, bb: BitBoard) -> bool {
    searchable(bb) && bb@ == board@ && bb.hash == board.hash
}

/// The move of a result is the one a search found.
pub open spec fn same_move(m: Option<Move>, found: Option<BitMove>) -> bool {
    match found {
        Some(bm) => m matches Some(x) && x.valid() && x@ == bm@,
        None => m is None,
    }
}

/// An engine that is asked about boards.
pub struct Engine<L: OutputLayer> {
    pub inner: BitBoardEngine<L>,
}

/// The counters of several searches, summed: nodes, cutoffs, table hits and
/// quiescence nodes.
pub open spec fn totals<L: OutputLayer>(runs: Seq<Run<L>>) -> (int, int, int, int)
    decreases runs.len(),
{
    if runs.len() == 0 {
        (0, 0, 0, 0)
    } else {
        let (n, c, t, q) = totals(runs.drop_last());
        let e = runs.last().to;
        (
            held_sum(e.nodes_searched as int, n),
            held_sum(e.cutoffs as int, c),
            held_sum(e.tt_hits as int, t),
            held_sum(e.quiesce_nodes as int, q),
        )
    }
}

/// The result is that of as many searches as its depth, one deeper each: the last
/// one's score and move, and the counters of all. Without any it is nothing.
#[verifier::opaque]
pub open spec fn ends_runs<L: OutputLayer>(
    first: BitBoardEngine<L>,
    runs: Seq<Run<L>>,
    end: BitBoardEngine<L>,
    bb: BitBoard,
    r: SearchResult,
    found: Option<BitMove>,
) -> bool {
    &&& reruns(first, runs, end, bb)
    &&& runs.len() == r.depth
    &&& totals(runs) == (
        r.nodes_searched as int,
        r.cutoffs as int,
        r.tt_hits as int,
        r.quiesce_nodes as int,
    )
    &&& if runs.len() == 0 {
        r.score == 0 && found is None
    } else {
        r.score == runs.last().found.0 && found == runs.last().found.1
    }
}

#[verifier::spinoff_prover]
proof fn lemma_runs_more<L: OutputLayer>(
    first: BitBoardEngine<L>,
    runs: Seq<Run<L>>,
    bb: BitBoard,
    r: SearchResult,
    found: Option<BitMove>,
    s: Run<L>,
    next: SearchResult,
)
    requires
        ends_runs(first, runs, s.from, bb, r, found),
        s.from.aspirates(s.to, bb, (runs.len() + 1) as int, None, s.found),
        !s.to.search_stopped,
        next.depth == r.depth + 1,
        next.score == s.found.0,
        next.nodes_searched == held_sum(s.to.nodes_searched as int, r.nodes_searched as int),
        next.cutoffs == held_sum(s.to.cutoffs as int, r.cutoffs as int),
        next.tt_hits == held_sum(s.to.tt_hits as int, r.tt_hits as int),
        next.quiesce_nodes == held_sum(s.to.quiesce_nodes as int, r.quiesce_nodes as int),
    ensures
        ends_runs(first, runs.push(s), s.to, bb, next, s.found.1),
{
    reveal(ends_runs);
    lemma_reruns_more(first, runs, bb, s);
    assert(runs.push(s).drop_last() =~= runs);
}

/// The result is that of deepening from here on, with a deadline and no stop
/// noticed yet.
pub open spec fn deepened_from<L: OutputLayer>(
    e: BitBoardEngine<L>,
    bb: BitBoard,
    r: SearchResult,
    found: Option<BitMove>,
) -> bool {
    exists|begun: BitBoardEngine<L>, iterations: Seq<Iteration<L>>, end: BitBoardEngine<L>|
        #![trigger deepens(begun, iterations, end, bb, (r.score, found))]
        {
            &&& begun == (BitBoardEngine {
                deadline: begun.deadline,
                nodes_since_check: 0,
                search_stopped: false,
                ..e
            })
            &&& deepens(begun, iterations, end, bb, (r.score, found))
            &&& iterations.len() == r.depth
        }
}

impl<L: OutputLayer> Engine<L> {
    pub open spec fn wf(&self) -> bool {
        self.inner.wf()
    }

    /// The engine as a search starts: nothing has asked it to stop.
    pub open spec fn unstopped(&self) -> BitBoardEngine<L> {
        BitBoardEngine { search_stopped: false, nodes_since_check: 0, ..self.inner }
    }

    /// The result is that of searches one deeper each from here on. The engine
    /// ends as the last of them left it, unless one more was stopped.
    pub open spec fn ran(&self, after: BitBoardEngine<L>, bb: BitBoard, r: SearchResult, found: Option<BitMove>) -> bool {
        exists|runs: Seq<Run<L>>, end: BitBoardEngine<L>|
            #![trigger ends_runs(self.unstopped(), runs, end, bb, r, found)]
            ends_runs(self.unstopped(), runs, end, bb, r, found) && (!r.was_stopped ==> after == end)
    }

    /// An engine that asks this one.
    pub fn new(inner: BitBoardEngine<L>) -> (r: Self)
        ensures
            r.inner == inner,
    {
        Engine { inner }
    }

    /// Lowers the stop flag before a search.
    fn begin_search(&mut self)
        requires
            old(self).wf(),
        ensures
            final(self).wf(),
            final(self).inner == old(self).unstopped(),
    {
        lower(&self.inner.stop_flag);
        self.inner.search_stopped = false;
        self.inner.nodes_since_check = 0;
        proof {
            reveal(BitBoardEngine::tables_ok);
        }
    }

    /// The statistics of the last search with a result.
    fn report(&self, score: i32, found: Option<BitMove>, depth: u8) -> (r: SearchResult)
        requires
            found matches Some(m) ==> m.valid(),
        ensures
            same_move(r.best_move, found),
            r.score == score,
            r.depth == depth,
            r.nodes_searched == self.inner.nodes_searched,
            r.cutoffs == self.inner.cutoffs,
            r.tt_hits == self.inner.tt_hits,
            r.quiesce_nodes == self.inner.quiesce_nodes,
            r.was_stopped == self.inner.search_stopped,
    {
        let best_move: Option<Move> = match &found {
            Some(m) => Some(m.to_move()),
            None => None,
        };
        SearchResult {
            best_move,
            score,
            nodes_searched: self.inner.nodes_searched,
            cutoffs: self.inner.cutoffs,
            tt_hits: self.inner.tt_hits,
            quiesce_nodes: self.inner.quiesce_nodes,
            depth,
            was_stopped: self.inner.search_stopped,
        }
    }

    /// Searches a board to a depth.
    pub fn search(&mut self, board: &Board, depth: u8) -> (r: SearchResult)
        requires
            old(self).wf(),
            exists|bb: BitBoard| #[trigger] stands_for(*board, bb),
        ensures
            final(self).wf(),
            final(self).inner.fixed() == old(self).inner.fixed(),
            r.depth == depth,
            r.was_stopped == final(self).inner.search_stopped,
            r.nodes_searched == final(self).inner.nodes_searched,
            r.cutoffs == final(self).inner.cutoffs,
            r.tt_hits == final(self).inner.tt_hits,
            r.quiesce_nodes == final(self).inner.quiesce_nodes,
            r.was_stopped ==> r.nodes_searched >= 1024,
            board@.winner() is Some ==> !r.was_stopped,
            forall|bb: BitBoard| #[trigger]
                stands_for(*board, bb) ==> exists|found: Option<BitMove>| #[trigger]
                    same_move(r.best_move, found) && BitBoardEngine::<L>::result_ok(bb, (r.score, found)) && old(
                        self).unstopped().aspirates(final(self).inner, bb, depth as int, None, (r.score, found)) && old(self).unstopped().answers(
                        bb,
                        depth,
                        (i32::MIN + 1) as i32,
                        (i32::MAX - 1) as i32,
                        seq![bb.hash],
                        (r.score, found),
                        r.was_stopped,
                    ) && old(self).unstopped().finds_plainly(
                        final(self).inner,
                        bb,
                        depth,
                        depth as int,
                        true,
                        (r.score, found),
                    ) && old(self).unstopped().proves_at(final(self).inner, bb, r.score as int),
    {
        let bb = BitBoard::from_board(board);
        proof {
            lemma_board_of(*board, bb);
        }
        self.begin_search();
        let (score, found): (i32, Option<BitMove>) = self.inner.search(&bb, depth);
        let r = self.report(score, found, depth);
        proof {
            assert forall|b: BitBoard| #[trigger] stands_for(*board, b) implies b == bb by {
                law_bitboard_is_its_view(b, bb);
            }
            assert(same_move(r.best_move, found));
        }
        r
    }

    /// Searches a board deeper and deeper, up to a depth or a proven win for
    /// the side to move. A stopped iteration is dropped.
    #[verifier::rlimit(40)]
    pub fn search_iterative(&mut self, board: &Board, max_depth: u8) -> (r: SearchResult)
        requires
            old(self).wf(),
            exists|bb: BitBoard| #[trigger] stands_for(*board, bb),
        ensures
            final(self).wf(),
            final(self).inner.fixed() == old(self).inner.fixed(),
            r.depth <= max_depth,
            r.depth == 0 ==> r.score == 0 && r.best_move is None,
            r.was_stopped || r.depth == max_depth || proven_win(board.current_player, r.score as int),
            r.was_stopped == final(self).inner.search_stopped,
            r.was_stopped ==> r.nodes_searched + final(self).inner.nodes_searched >= 1024,
            forall|bb: BitBoard| #[trigger]
                stands_for(*board, bb) ==> exists|found: Option<BitMove>| #[trigger]
                    same_move(r.best_move, found) && BitBoardEngine::<L>::result_ok(bb, (r.score, found)) && old(
                        self).ran(final(self).inner, bb, r, found) && old(self).unstopped().moves_plainly(
                        bb,
                        max_depth as int,
                        r.depth as int,
                        r.score as int,
                        found,
                    ) && (r.depth == 1 ==> old(self).unstopped().answers(
                        bb,
                        1,
                        (i32::MIN + 1) as i32,
                        (i32::MAX - 1) as i32,
                        seq![bb.hash],
                        (r.score, found),
                        false,
                    )) && old(self).unstopped().deepened_plainly(bb, max_depth as int, r.depth as int, r.score as int)
                        && old(self).unstopped().proves_at(final(self).inner, bb, r.score as int),
    {
        let bb = BitBoard::from_board(board);
        proof {
            lemma_board_of(*board, bb);
        }
        self.begin_search();
        let mut best = SearchResult {
            best_move: None,
            score: 0,
            nodes_searched: 0,
            cutoffs: 0,
            tt_hits: 0,
            quiesce_nodes: 0,
            depth: 0,
            was_stopped: false,
        };
        let ghost mut best_found: Option<BitMove> = None;
        let mut over: bool = false;
        proof {
            lemma_proves_mild(bb.hash, 0, 0, i32::MIN + 1, i32::MAX - 1);
            lemma_deepen_start(self.inner, bb, max_depth as int);
            lemma_reruns_start(self.inner, bb);
            assert(ends_runs(self.inner, Seq::empty(), self.inner, bb, best, None)) by {
                reveal(ends_runs);
            }
        }
        let ghost mut runs: Seq<Run<L>> = Seq::empty();
        let ghost mut end = self.inner;
        while !over && best.depth < max_depth
            invariant
                old(self).unstopped().goes_on_plainly(
                    self.inner,
                    bb,
                    max_depth as int,
                    best.depth as int,
                    best.score as int,
                ),
                old(self).unstopped().proves_at(self.inner, bb, best.score as int),
                old(self).unstopped().fixed() == old(self).inner.fixed(),
                runs.len() == best.depth,
                ends_runs(old(self).unstopped(), runs, end, bb, best, best_found),
                !best.was_stopped ==> end == self.inner,
                best.was_stopped ==> best.nodes_searched + self.inner.nodes_searched >= 1024,
                !best.was_stopped ==> self.inner.nodes_since_check <= best.nodes_searched,
                old(self).unstopped().moves_plainly(
                    bb,
                    max_depth as int,
                    best.depth as int,
                    best.score as int,
                    best_found,
                ),
                !best.was_stopped && old(self).unstopped().tt.find(bb.hash) is None ==> shallower(
                    self.inner.tt.find(bb.hash),
                    best.depth + 1,
                ),
                self.wf(),
                searchable(bb),
                bb@ == board@,
                self.inner.fixed() == old(self).inner.fixed(),
                best.depth <= max_depth,
                best.depth == 0 ==> best.score == 0 && best.best_move is None,
                best.depth == 0 && !over ==> self.inner == old(self).unstopped(),
                over ==> best.was_stopped || proven_win(bb.current_player, best.score as int),
                best.was_stopped == self.inner.search_stopped,
                best.was_stopped ==> over,
                same_move(best.best_move, best_found),
                BitBoardEngine::<L>::result_ok(bb, (best.score, best_found)),
                best.depth == 1 ==> old(self).unstopped().answers(
                    bb,
                    1,
                    (i32::MIN + 1) as i32,
                    (i32::MAX - 1) as i32,
                    seq![bb.hash],
                    (best.score, best_found),
                    false,
                ),
            decreases
                    if over {
                        0int
                    } else {
                        1 + max_depth - best.depth
                    },
        {
            let depth: u8 = best.depth + 1;
            let ghost deepening = self.inner;
            let (score, found): (i32, Option<BitMove>) = self.inner.search_within(&bb, depth, Ghost(max_depth as int));
            proof {
                lemma_deepen_again(
                    old(self).unstopped(),
                    deepening,
                    self.inner,
                    bb,
                    max_depth,
                    best.depth,
                    best.score as int,
                    (score, found),
                );
            }
            if self.inner.search_stopped {
                let ghost kept = best;
                best.was_stopped = true;
                over = true;
                proof {
                    reveal(ends_runs);
                }
            } else {
                let mut r = self.report(score, found, depth);
                r.nodes_searched = r.nodes_searched.saturating_add(best.nodes_searched);
                r.cutoffs = r.cutoffs.saturating_add(best.cutoffs);
                r.tt_hits = r.tt_hits.saturating_add(best.tt_hits);
                r.quiesce_nodes = r.quiesce_nodes.saturating_add(best.quiesce_nodes);
                proof {
                    assert(self.inner.nodes_since_check < 1024) by {
                        reveal(BitBoardEngine::tables_ok);
                    }
                    let s = Run { from: deepening, to: self.inner, found: (score, found) };
                    lemma_runs_more(old(self).unstopped(), runs, bb, best, best_found, s, r);
                    runs = runs.push(s);
                    end = self.inner;
                    best_found = found;
                }
                best = r;
                over = match bb.current_player {
                    Player::White => score > WIN_BOUND,
                    Player::Black => score < -WIN_BOUND,
                };
            }
        }
        proof {
            assert forall|b: BitBoard| #[trigger] stands_for(*board, b) implies b == bb by {
                law_bitboard_is_its_view(b, bb);
            }
            reveal(BitBoardEngine::goes_on_plainly);
            assert(old(self).ran(self.inner, bb, best, best_found));
            assert(same_move(best.best_move, best_found));
            assert(bb@.player == board@.player);
        }
        best
    }

    /// Searches a board until the time is up.
    pub fn search_timed(&mut self, board: &Board, time_ms: u64) -> (r: SearchResult)
        requires
            old(self).wf(),
            exists|bb: BitBoard| #[trigger] stands_for(*board, bb),
        ensures
            final(self).wf(),
            final(self).inner.fixed() == old(self).inner.fixed(),
            final(self).inner.deadline is None,
            !r.was_stopped,
            r.nodes_searched == final(self).inner.nodes_searched,
            r.cutoffs == final(self).inner.cutoffs,
            r.tt_hits == final(self).inner.tt_hits,
            r.quiesce_nodes == final(self).inner.quiesce_nodes,
            r.depth <= 30,
            r.depth == 30 || proven_win(board.current_player, r.score as int) || r.nodes_searched + 2 * (r.depth + 1) >= 1024,
            forall|bb: BitBoard| #[trigger]
                stands_for(*board, bb) ==> exists|found: Option<BitMove>| #[trigger]
                    same_move(r.best_move, found) && deepened_from(old(self).inner, bb, r, found) && old(self).inner.finds(bb, r.depth as int, r.score, found) && old(
                        self).inner.deepened_plainly(bb, 30, r.depth as int, r.score as int) && old(self).inner.proves_at(
                        final(self).inner,
                        bb,
                        r.score as int,
                    ),
    {
        let bb = BitBoard::from_board(board);
        proof {
            lemma_board_of(*board, bb);
        }
        lower(&self.inner.stop_flag);
        let (score, found, depth): (i32, Option<BitMove>, u8) = self.inner.search_timed(&bb, time_ms);
        let r = self.report(score, found, depth);
        proof {
            assert forall|b: BitBoard| #[trigger] stands_for(*board, b) implies b == bb by {
                law_bitboard_is_its_view(b, bb);
            }
            assert(same_move(r.best_move, found));
            assert(bb@.player == board@.player);
            assert(deepened_from(old(self).inner, bb, r, found));
        }
        r
    }

    /// The handcrafted evaluation of a board from white's point of view.
    pub fn evaluate_position(&self, board: &Board) -> (r: i32)
        requires
            self.wf(),
            exists|bb: BitBoard| #[trigger] stands_for(*board, bb),
        ensures
            forall|bb: BitBoard| #[trigger] stands_for(*board, bb) ==> r == heuristic_of(self.inner.weights, bb),
    {
        let bb = BitBoard::from_board(board);
        proof {
            lemma_board_of(*board, bb);
            assert forall|b: BitBoard| #[trigger] stands_for(*board, b) implies b == bb by {
                law_bitboard_is_its_view(b, bb);
            }
        }
        self.inner.evaluate_heuristic(&bb)
    }

    /// The exact value of a board if its phase is solved: who wins, if anyone,
    /// and in how many moves.
    pub fn tablebase_probe(&self, board: &Board) -> (r: Option<(Option<Player>, u8)>)
        requires
            self.wf(),
            exists|bb: BitBoard| #[trigger] stands_for(*board, bb),
        ensures
            forall|bb: BitBoard| #[trigger]
                stands_for(*board, bb) ==> r == match self.inner.table_value(bb) {
                    Some(v) => Some(
                        if is_white_win(v) {
                            (Some(Player::White), win_dist(v))
                        } else if is_black_win(v) {
                            (Some(Player::Black), win_dist(v))
                        } else {
                            (None, 0u8)
                        },
                    ),
                    None => None,
                },
    {
        let bb = BitBoard::from_board(board);
        proof {
            lemma_board_of(*board, bb);
            assert forall|b: BitBoard| #[trigger] stands_for(*board, b) implies b == bb by {
                law_bitboard_is_its_view(b, bb);
            }
            crate::phase::lemma_barrels_popcount(bb, Player::White);
            crate::phase::lemma_barrels_popcount(bb, Player::Black);
        }
        let v: u8 = match &self.inner.tablebase {
            Some(tb) => match tb.value(&bb) {
                Some(v) => v,
                None => {
                    return None;
                },
            },
            None => {
                return None;
            },
        };
        Some(
            if is_white_win(v) {
                (Some(Player::White), win_dist(v))
            } else if is_black_win(v) {
                (Some(Player::Black), win_dist(v))
            } else {
                (None, 0)
            },
        )
    }

    /// How many moves each side alone needs to bring its barrels home.
    pub fn race_distances(&self, board: &Board) -> (r: (u16, u16))
        requires
            self.wf(),
            exists|bb: BitBoard| #[trigger] stands_for(*board, bb),
        ensures
            forall|bb: BitBoard| #[trigger] stands_for(*board, bb) ==> r == races_of(bb),
    {
        let bb = BitBoard::from_board(board);
        proof {
            lemma_board_of(*board, bb);
            assert forall|b: BitBoard| #[trigger] stands_for(*board, b) implies b == bb by {
                law_bitboard_is_its_view(b, bb);
            }
        }
        race_distances(&self.inner.race, &bb)
    }
}

/// The mask board of a board that can be searched can be searched.
proof fn lemma_board_of(board: Board, bb: BitBoard)
    requires
        exists|b: BitBoard| #[trigger] stands_for(board, b),
        bb.inv(),
        bb@ == board@,
        bb.hash == board.hash,
    ensures
        searchable(bb),
{
    let b = choose|b: BitBoard| #[trigger] stands_for(board, b);
    law_bitboard_is_its_view(b, bb);
}

} // verus!
