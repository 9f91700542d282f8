//! What a search makes of finished games, draws, endgame tables and moves, for
//! all settings and whatever it prunes.
use vstd::prelude::*;
use crate::bitboard::BitBoard;
use crate::bitmove::BitMove;
use crate::board::Player;
use crate::engine::{BitBoardEngine, OutputLayer};
use crate::heuristic::{heuristic_of, EvalWeights};
use crate::movegen::{has_action, lists_legal};
use crate::node::is_legal;
use crate::plain_search::{lemma_plain_parts, plain_value, PlainRules};
use crate::quiet::{is_tactical, lemma_quiet_ends, lemma_quiet_parts, qs_cap, quiet_value, QuietRules};
use crate::race::RaceTable;
use crate::retrograde::lemma_played_same;
use crate::root_walk::{misses, RootSearch};
use crate::rules::Action;
use crate::search::NodeFacts;
use crate::tablebase::Tablebase;
use crate::walk::{
    expanded, expands, looked, looks, looks_again, null_window, prunes, reduced_depth, replies, score_of,
    tries, visits, walks, Expansion, Glance, Look, Progress, Try,
};

verus! {

/// The position can come up in a search without being a draw by the rules: it is
/// not on the path, was not seen in the game, and there has been progress.
pub open spec fn is_news<L: OutputLayer>(e: BitBoardEngine<L>, b: BitBoard) -> bool {
    &&& !e.path_hashes@.contains(b.hash)
    &&& !e.game_history@.contains(b.hash)
    &&& e.no_progress_limit == 0 || b.halfmove_clock < e.no_progress_limit
}

/// The loaded tables say that a side wins the position in this many moves.
pub open spec fn table_says<L: OutputLayer>(e: BitBoardEngine<L>, b: BitBoard, winner: Player, moves: int) -> bool {
    e.tablebase is Some && exists|v: u8| #[trigger]
        call_ensures(Tablebase::value, (&e.tablebase->0, &b), Some(v)) && match winner {
            Player::White => 1 <= v <= 121 && moves == v - 1,
            Player::Black => 129 <= v <= 249 && moves == v - 129,
        }
}

/// A position below the root that the tables know as won is scored as a win for
/// that side, by as many moves as it is away from the root and then still has to
/// go, whatever the depth and the window.
pub proof fn law_table_wins_are_scored<L: OutputLayer>(
    a: BitBoardEngine<L>,
    b: BitBoardEngine<L>,
    bb: BitBoard,
    depth: int,
    alpha: i32,
    beta: i32,
    r: (i32, Option<BitMove>),
    winner: Player,
    moves: int,
)
    requires
        visits(a, b, bb, depth, alpha, beta, r),
        a.path_hashes@.len() > 0,
        is_news(a, bb),
        table_says(a, bb, winner, moves),
    ensures
        winner == Player::White ==> r.0 == 100_000 - (a.path_hashes@.len() + moves),
        winner == Player::Black ==> r.0 == -100_000 + (a.path_hashes@.len() + moves),
        a.path_hashes@.len() < 9_000 && winner == Player::White ==> r.0 > 90_000,
        a.path_hashes@.len() < 9_000 && winner == Player::Black ==> r.0 < -90_000,
{
    reveal(visits);
    let v = choose|v: u8| #[trigger]
        call_ensures(Tablebase::value, (&a.tablebase->0, &bb), Some(v)) && match winner {
            Player::White => 1 <= v <= 121 && moves == v - 1,
            Player::Black => 129 <= v <= 249 && moves == v - 129,
        };
    assert(a.table_value(bb) == Some(v));
}

/// Positions that the tables know as won for opposite sides by equally many moves
/// have opposite scores equally far from the root.
pub proof fn law_table_scores_are_opposite<L: OutputLayer>(
    a: BitBoardEngine<L>,
    b: BitBoardEngine<L>,
    bb: BitBoard,
    r: (i32, Option<BitMove>),
    c: BitBoardEngine<L>,
    d: BitBoardEngine<L>,
    cc: BitBoard,
    s: (i32, Option<BitMove>),
    depth: int,
    alpha: i32,
    beta: i32,
    moves: int,
)
    requires
        visits(a, b, bb, depth, alpha, beta, r),
        visits(c, d, cc, depth, alpha, beta, s),
        a.path_hashes@.len() > 0,
        c.path_hashes@.len() == a.path_hashes@.len(),
        is_news(a, bb),
        is_news(c, cc),
        table_says(a, bb, Player::White, moves),
        table_says(c, cc, Player::Black, moves),
    ensures
        s.0 == -r.0,
{
    law_table_wins_are_scored(a, b, bb, depth, alpha, beta, r, Player::White, moves);
    law_table_wins_are_scored(c, d, cc, depth, alpha, beta, s, Player::Black, moves);
}

/// A position below the root that was seen before, or without progress for too
/// long, is worth a draw, and so is one that the tables know as neither side's
/// win: contempt counts against the player at the root.
pub proof fn law_draws_cost_the_root<L: OutputLayer>(
    a: BitBoardEngine<L>,
    b: BitBoardEngine<L>,
    bb: BitBoard,
    depth: int,
    alpha: i32,
    beta: i32,
    r: (i32, Option<BitMove>),
)
    requires
        visits(a, b, bb, depth, alpha, beta, r),
        a.path_hashes@.len() > 0,
        !is_news(a, bb) || a.tablebase is Some && exists|v: u8| #[trigger]
            call_ensures(Tablebase::value, (&a.tablebase->0, &bb), Some(v)) && !(1 <= v <= 121) && !(129 <= v <= 249),
    ensures
        a.root_player == Player::White ==> r.0 == -a.contempt,
        a.root_player == Player::Black ==> r.0 == a.contempt,
        r.1 is None,
{
    reveal(visits);
    if is_news(a, bb) {
        let v = choose|v: u8| #[trigger]
            call_ensures(Tablebase::value, (&a.tablebase->0, &bb), Some(v)) && !(1 <= v <= 121) && !(129 <= v <= 249);
        assert(a.table_value(bb) == Some(v));
    }
}

/// A finished game that no table and no rule decides is scored for the side with
/// four barrels home, less the nearer it is to the root, with no move.
pub proof fn law_finished_games_are_scored<L: OutputLayer>(
    a: BitBoardEngine<L>,
    b: BitBoardEngine<L>,
    bb: BitBoard,
    depth: int,
    alpha: i32,
    beta: i32,
    r: (i32, Option<BitMove>),
)
    requires
        visits(a, b, bb, depth, alpha, beta, r),
        a.path_hashes@.len() == 0 || is_news(a, bb) && a.tablebase is None,
        a.tt.find(bb.hash) is None,
        !b.search_stopped,
        bb.white_scored == 4 || bb.black_scored == 4,
    ensures
        r.1 is None,
        bb.white_scored == 4 ==> r.0 == 100_000 - a.path_hashes@.len(),
        bb.white_scored < 4 ==> r.0 == -100_000 + a.path_hashes@.len(),
{
    reveal(visits);
    assert(bb@.white_scored == bb.white_scored && bb@.black_scored == bb.black_scored);
    let (x, y) = choose|x: BitBoardEngine<L>, y: BitBoardEngine<L>|
        #![trigger a.steps_onto(x, bb.hash), y.steps_back(b)]
        a.steps_onto(x, bb.hash) && looks(x, y, bb, depth, alpha, beta, r) && y.steps_back(b);
    reveal(looks);
    let v = choose|v: Look<L>|
        #![trigger x.wakes(v.awake)]
        x.wakes(v.awake) && looked(x, y, v, bb, depth, alpha, beta, r);
}

proof fn lemma_tried_keeps<L: OutputLayer>(
    a: BitBoardEngine<L>,
    b: BitBoardEngine<L>,
    bb: BitBoard,
    n: NodeFacts,
    m: BitMove,
    searched: int,
    alpha: i32,
    beta: i32,
    score: i32,
)
    requires
        tries(a, b, bb, n, m, searched, alpha, beta, score),
    ensures
        a.keeps(b),
{
    reveal(tries);
}

/// The tries of a root: none is left out, and the best score is
/// as good as each.
#[verifier::spinoff_prover]
proof fn lemma_root_tries<L: OutputLayer>(
    a: BitBoardEngine<L>,
    now: BitBoardEngine<L>,
    bb: BitBoard,
    n: NodeFacts,
    moves: Seq<BitMove>,
    futile: bool,
    alpha: i32,
    beta: i32,
    steps: Seq<Try<L>>,
    end: Progress,
    i: int,
    score: int,
)
    requires
        walks(a, now, bb, n, moves, futile, alpha, beta, steps, end),
        n.ply == 0,
        forall|x: BitBoardEngine<L>, y: BitBoardEngine<L>, k: int, lo: i32, hi: i32, s: i32|
            a.keeps(x) && #[trigger] tries(x, y, bb, n, moves[i], k, lo, hi, s) ==> s == score,
    ensures
        a.keeps(now),
        0 <= i < steps.len() && n.maximizing ==> end.best >= score,
        0 <= i < steps.len() && !n.maximizing ==> end.best <= score,
        n.maximizing ==> end.beta == beta && (end.alpha == alpha || end.alpha <= end.best) && end.best >= i32::MIN + 1,
        !n.maximizing ==> end.alpha == alpha && (end.beta == beta || end.beta >= end.best) && end.best <= i32::MAX - 1,
        end.cut ==> end.beta <= end.alpha,
    decreases steps.len(),
{
    reveal(walks);
    if steps.len() > 0 {
        let s = steps.last();
        let m = moves[steps.len() - 1];
        let p = s.before;
        lemma_root_tries(a, s.from, bb, n, moves, futile, alpha, beta, steps.drop_last(), p, i, score);
        lemma_tried_keeps(s.from, s.tried, bb, n, m, p.searched, p.alpha, p.beta, s.score);
        if i == steps.len() - 1 {
            assert(tries(s.from, s.tried, bb, n, moves[i], p.searched, p.alpha, p.beta, s.score));
        }
    }
}

/// A move to a position that is answered at once is scored by that answer,
/// whatever is reduced.
#[verifier::spinoff_prover]
proof fn lemma_tried_at_once<L: OutputLayer>(
    a: BitBoardEngine<L>,
    b: BitBoardEngine<L>,
    bb: BitBoard,
    n: NodeFacts,
    m: BitMove,
    searched: int,
    alpha: i32,
    beta: i32,
    score: i32,
    winner: Player,
    moves: int,
)
    requires
        tries(a, b, bb, n, m, searched, alpha, beta, score),
        a.path_hashes@.len() > 0,
        is_news(a, bb.played(m)),
        table_says(a, bb.played(m), winner, moves),
    ensures
        winner == Player::White ==> score == 100_000 - (a.path_hashes@.len() + moves),
        winner == Player::Black ==> score == -100_000 + (a.path_hashes@.len() + moves),
{
    reveal(tries);
    let c = bb.played(m);
    let p = bb.current_player;
    let (x, y) = choose|x: BitBoardEngine<L>, y: BitBoardEngine<L>|
        #![trigger a.plays_into(x, bb, m), y.leaves_child(b)]
        a.plays_into(x, bb, m) && replies(x, y, c, n, m, searched, alpha, beta, p, score) && y.leaves_child(b);
    assert(x.tablebase == a.tablebase && x.path_hashes == a.path_hashes && x.game_history == a.game_history
        && x.no_progress_limit == a.no_progress_limit) by {
        reveal(BitBoardEngine::enters_child);
        let w = BitBoardEngine { prev_move: a.prev_move, ..x };
        assert(w.tablebase == x.tablebase && w.path_hashes == x.path_hashes && w.game_history == x.game_history
            && w.no_progress_limit == x.no_progress_limit);
    }
    assert(is_news(x, c) && table_says(x, c, winner, moves));
    lemma_replied_at_once(x, y, c, n, m, searched, alpha, beta, p, score, winner, moves);
}

#[verifier::spinoff_prover]
proof fn lemma_replied_at_once<L: OutputLayer>(
    x: BitBoardEngine<L>,
    y: BitBoardEngine<L>,
    c: BitBoard,
    n: NodeFacts,
    m: BitMove,
    searched: int,
    alpha: i32,
    beta: i32,
    p: Player,
    score: i32,
    winner: Player,
    moves: int,
)
    requires
        replies(x, y, c, n, m, searched, alpha, beta, p, score),
        x.path_hashes@.len() > 0,
        is_news(x, c),
        table_says(x, c, winner, moves),
    ensures
        winner == Player::White ==> score == 100_000 - (x.path_hashes@.len() + moves),
        winner == Player::Black ==> score == -100_000 + (x.path_hashes@.len() + moves),
{
    reveal(replies);
    if searched == 0 {
        let found = choose|found: (i32, Option<BitMove>)|
            #![trigger score_of(found)]
            visits(x, y, c, n.depth - 1, alpha, beta, found) && score == score_of(found);
        law_table_wins_are_scored(x, y, c, n.depth - 1, alpha, beta, found, winner, moves);
    } else {
        let reduction = x.reduction_of(n, m, searched, p);
        let d = reduced_depth(n, reduction);
        let (lo, hi) = null_window(n.maximizing, alpha, beta);
        let g = choose|g: Glance<L>|
            #![trigger g.score()]
            visits(x, g.mid, c, d, lo, hi, g.found) && if looks_again(n, reduction, alpha, beta, g.score()) {
                exists|found: (i32, Option<BitMove>)|
                    #![trigger score_of(found)]
                    visits(g.mid, y, c, n.depth - 1, alpha, beta, found) && score == score_of(found)
            } else {
                y == g.mid && score == g.score()
            };
        law_table_wins_are_scored(x, g.mid, c, d, lo, hi, g.found, winner, moves);
        if looks_again(n, reduction, alpha, beta, g.score()) {
            let found = choose|found: (i32, Option<BitMove>)|
                #![trigger score_of(found)]
                visits(g.mid, y, c, n.depth - 1, alpha, beta, found) && score == score_of(found);
            lemma_answered_at_once(x, g.mid, c, d, lo, hi, g.found, winner, moves);
            assert(is_news(g.mid, c) && table_says(g.mid, c, winner, moves));
            law_table_wins_are_scored(g.mid, y, c, n.depth - 1, alpha, beta, found, winner, moves);
        }
    }
}

proof fn lemma_says_value<L: OutputLayer>(e: BitBoardEngine<L>, b: BitBoard, winner: Player, moves: int)
    requires
        table_says(e, b, winner, moves),
    ensures
        e.table_value(b) is Some,
{
    let v = choose|v: u8| #[trigger]
        call_ensures(Tablebase::value, (&e.tablebase->0, &b), Some(v)) && match winner {
            Player::White => 1 <= v <= 121 && moves == v - 1,
            Player::Black => 129 <= v <= 249 && moves == v - 129,
        };
    assert(e.table_value(b) == Some(v));
}

proof fn lemma_answered_at_once<L: OutputLayer>(
    a: BitBoardEngine<L>,
    b: BitBoardEngine<L>,
    bb: BitBoard,
    depth: int,
    alpha: i32,
    beta: i32,
    r: (i32, Option<BitMove>),
    winner: Player,
    moves: int,
)
    requires
        visits(a, b, bb, depth, alpha, beta, r),
        a.path_hashes@.len() > 0,
        table_says(a, bb, winner, moves),
    ensures
        b.tablebase == a.tablebase,
        b.path_hashes == a.path_hashes,
        b.game_history == a.game_history,
        b.no_progress_limit == a.no_progress_limit,
{
    reveal(visits);
    lemma_says_value(a, bb, winner, moves);
}

/// With the whole window nothing is pruned before the moves.
#[verifier::spinoff_prover]
proof fn lemma_whole_window<L: OutputLayer>(
    a: BitBoardEngine<L>,
    b: BitBoardEngine<L>,
    bb: BitBoard,
    n: NodeFacts,
    s: Option<i32>,
)
    requires
        prunes(a, b, bb, n, (i32::MIN + 1) as i32, (i32::MAX - 1) as i32, s),
        a.knobs.ok(),
        n.ok(),
    ensures
        s is None,
        b == a,
{
    reveal(prunes);
    let alpha = (i32::MIN + 1) as i32;
    let beta = (i32::MAX - 1) as i32;
    if n.depth <= 3 {
        let k = a.knobs.razor_slope as int;
        let d = n.depth as int;
        assert(-600_000_000 <= k * d <= 600_000_000) by (nonlinear_arith)
            requires
                -200_000_000 <= k <= 200_000_000,
                0 <= d <= 3,
        ;
    }
    assert(!a.razors(n, alpha, beta));
}

/// A search from a root with a move into a position that the tables know as won
/// for the side to move finds a win, as near as that one or nearer: the table
/// knows nothing of the root itself yet, the search is deep enough to look at
/// moves, and is not stopped.
#[verifier::spinoff_prover]
pub proof fn law_table_wins_are_found<L: OutputLayer>(
    e: BitBoardEngine<L>,
    f: BitBoardEngine<L>,
    bb: BitBoard,
    depth: int,
    r: (i32, Option<BitMove>),
    m: BitMove,
    moves: int,
)
    requires
        e.aspirates(f, bb, depth, None, r),
        e.knobs.ok(),
        !f.search_stopped,
        e.tt.find(bb.hash) is None,
        bb.white_scored < 4,
        bb.black_scored < 4,
        depth >= 2 || depth == 1 && e.knobs.iir_depth > 1,
        is_legal(bb, m),
        bb.played(m).hash != bb.hash,
        !e.game_history@.contains(bb.played(m).hash),
        e.no_progress_limit == 0 || bb.played(m).halfmove_clock < e.no_progress_limit,
        table_says(e, bb.played(m), bb.current_player, moves),
    ensures
        bb.current_player == Player::White ==> r.0 >= 100_000 - (1 + moves) && r.0 > 90_000,
        bb.current_player == Player::Black ==> r.0 <= -100_000 + (1 + moves) && r.0 < -90_000,
{
    reveal(BitBoardEngine::aspirates);
    let v = choose|v: RootSearch<L>|
        #![trigger e.begins_search(v.begun, bb, true)]
        {
            &&& e.begins_search(v.begun, bb, true)
            &&& v.tried.len() == 0
            &&& misses(v.begun, v.last, bb, depth, None, v.tried, v.aim)
            &&& visits(v.last, f, bb, depth, v.aim.alpha, v.aim.beta, r)
            &&& v.aim.holds(r.0)
        };
    reveal(misses);
    let a = v.begun;
    assert(a.tablebase == e.tablebase && a.knobs == e.knobs && a.game_history == e.game_history && a.no_progress_limit
        == e.no_progress_limit && a.tt.find(bb.hash) is None && a.path_hashes@ == Seq::<u64>::empty()) by {
        reveal(BitBoardEngine::begins_search);
    }
    assert(table_says(a, bb.played(m), bb.current_player, moves));
    lemma_win_found(a, f, bb, depth, r, m, moves);
}

#[verifier::spinoff_prover]
proof fn lemma_win_found<L: OutputLayer>(
    a: BitBoardEngine<L>,
    f: BitBoardEngine<L>,
    bb: BitBoard,
    depth: int,
    r: (i32, Option<BitMove>),
    m: BitMove,
    moves: int,
)
    requires
        visits(a, f, bb, depth, (i32::MIN + 1) as i32, (i32::MAX - 1) as i32, r),
        a.path_hashes@ == Seq::<u64>::empty(),
        a.knobs.ok(),
        !f.search_stopped,
        a.tt.find(bb.hash) is None,
        bb.white_scored < 4,
        bb.black_scored < 4,
        depth >= 2 || depth == 1 && a.knobs.iir_depth > 1,
        is_legal(bb, m),
        bb.played(m).hash != bb.hash,
        !a.game_history@.contains(bb.played(m).hash),
        a.no_progress_limit == 0 || bb.played(m).halfmove_clock < a.no_progress_limit,
        table_says(a, bb.played(m), bb.current_player, moves),
    ensures
        bb.current_player == Player::White ==> r.0 >= 100_000 - (1 + moves) && r.0 > 90_000,
        bb.current_player == Player::Black ==> r.0 <= -100_000 + (1 + moves) && r.0 < -90_000,
{
    let alpha = (i32::MIN + 1) as i32;
    let beta = (i32::MAX - 1) as i32;
    reveal(visits);
    let (x, y) = choose|x: BitBoardEngine<L>, y: BitBoardEngine<L>|
        #![trigger a.steps_onto(x, bb.hash), y.steps_back(f)]
        a.steps_onto(x, bb.hash) && looks(x, y, bb, depth, alpha, beta, r) && y.steps_back(f);
    assert(x.path_hashes@ =~= seq![bb.hash]);
    assert(table_says(x, bb.played(m), bb.current_player, moves));
    lemma_win_looked(x, y, bb, depth, r, m, moves);
}

#[verifier::spinoff_prover]
proof fn lemma_win_looked<L: OutputLayer>(
    a: BitBoardEngine<L>,
    f: BitBoardEngine<L>,
    bb: BitBoard,
    depth: int,
    r: (i32, Option<BitMove>),
    m: BitMove,
    moves: int,
)
    requires
        looks(a, f, bb, depth, (i32::MIN + 1) as i32, (i32::MAX - 1) as i32, r),
        a.path_hashes@ == seq![bb.hash],
        a.knobs.ok(),
        !f.search_stopped,
        a.tt.find(bb.hash) is None,
        bb.white_scored < 4,
        bb.black_scored < 4,
        depth >= 2 || depth == 1 && a.knobs.iir_depth > 1,
        is_legal(bb, m),
        bb.played(m).hash != bb.hash,
        !a.game_history@.contains(bb.played(m).hash),
        a.no_progress_limit == 0 || bb.played(m).halfmove_clock < a.no_progress_limit,
        table_says(a, bb.played(m), bb.current_player, moves),
    ensures
        bb.current_player == Player::White ==> r.0 >= 100_000 - (1 + moves) && r.0 > 90_000,
        bb.current_player == Player::Black ==> r.0 <= -100_000 + (1 + moves) && r.0 < -90_000,
{
    let alpha = (i32::MIN + 1) as i32;
    let beta = (i32::MAX - 1) as i32;
    reveal(looks);
    let v = choose|v: Look<L>|
        #![trigger a.wakes(v.awake)]
        a.wakes(v.awake) && looked(a, f, v, bb, depth, alpha, beta, r);
    assert(bb@.white_scored == bb.white_scored && bb@.black_scored == bb.black_scored);
    let n = v.n;
    let j = v.judged;
    assert(j.knobs == a.knobs && j.tablebase == a.tablebase && j.path_hashes == a.path_hashes && j.game_history
        == a.game_history && j.no_progress_limit == a.no_progress_limit) by {
        reveal(BitBoardEngine::evaluates);
    }
    if v.pruned is Some {
        lemma_whole_window(j, f, bb, n, v.pruned);
    }
    lemma_whole_window(j, v.ready, bb, n, None);
    assert(table_says(j, bb.played(m), bb.current_player, moves));
    lemma_win_expanded(j, f, bb, n, r, m, moves);
}

#[verifier::spinoff_prover]
proof fn lemma_win_expanded<L: OutputLayer>(
    j: BitBoardEngine<L>,
    f: BitBoardEngine<L>,
    bb: BitBoard,
    n: NodeFacts,
    r: (i32, Option<BitMove>),
    m: BitMove,
    moves: int,
)
    requires
        expands(
            j,
            f,
            bb,
            n,
            (i32::MIN + 1) as i32,
            (i32::MIN + 1) as i32,
            (i32::MAX - 1) as i32,
            None,
            r,
        ),
        j.path_hashes@ == seq![bb.hash],
        n.ply == 0,
        n.maximizing == (bb.current_player == Player::White),
        is_legal(bb, m),
        bb.played(m).hash != bb.hash,
        !j.game_history@.contains(bb.played(m).hash),
        j.no_progress_limit == 0 || bb.played(m).halfmove_clock < j.no_progress_limit,
        table_says(j, bb.played(m), bb.current_player, moves),
    ensures
        bb.current_player == Player::White ==> r.0 >= 100_000 - (1 + moves) && r.0 > 90_000,
        bb.current_player == Player::Black ==> r.0 <= -100_000 + (1 + moves) && r.0 < -90_000,
{
    let alpha = (i32::MIN + 1) as i32;
    let beta = (i32::MAX - 1) as i32;
    reveal(expands);
    let z = choose|z: Expansion<L>|
        #![trigger lists_legal(z.listed, bb@)]
        lists_legal(z.listed, bb@) && expanded(j, f, z, bb, n, alpha, alpha, beta, None, r);
    lemma_listed(bb, z.listed, m);
    let i = lemma_in_order_somewhere(bb, z.listed, z.sorted, m);
    let c = bb.played(m);
    let score: int = if bb.current_player == Player::White {
        100_000 - (1 + moves)
    } else {
        -100_000 + (1 + moves)
    };
    assert(is_news(j, c)) by {
        assert(j.path_hashes@.len() == 1 && j.path_hashes@[0] == bb.hash);
    }
    assert forall|p: BitBoardEngine<L>, q: BitBoardEngine<L>, k: int, lo: i32, hi: i32, s: i32|
        j.keeps(p) && #[trigger] tries(p, q, bb, n, z.sorted[i], k, lo, hi, s) implies s == score by {
        let fj = j.fixed();
        let fp = p.fixed();
        assert(fj.tablebase == fp.tablebase && fj.game_history == fp.game_history && fj.no_progress_limit
            == fp.no_progress_limit);
        assert(is_news(p, c) && table_says(p, c, bb.current_player, moves));
        lemma_tried_at_once(p, q, bb, n, z.sorted[i], k, lo, hi, s, bb.current_player, moves);
    }
    lemma_root_tries(
        j,
        z.walked,
        bb,
        n,
        z.sorted,
        j.futile(n, alpha, beta),
        alpha,
        beta,
        z.steps,
        z.end,
        i,
        score,
    );
    assert(0 <= moves <= 120) by {
        let u = choose|u: u8| #[trigger]
            call_ensures(Tablebase::value, (&j.tablebase->0, &c), Some(u)) && match bb.current_player {
                Player::White => 1 <= u <= 121 && moves == u - 1,
                Player::Black => 129 <= u <= 249 && moves == u - 129,
            };
    }
}

proof fn lemma_listed(bb: BitBoard, listed: Seq<BitMove>, m: BitMove)
    requires
        lists_legal(listed, bb@),
        is_legal(bb, m),
    ensures
        exists|k: int| 0 <= k < listed.len() && (#[trigger] listed[k])@ == m@,
{
    reveal(is_legal);
    let kind = |a: Action| bb@.legal(a);
    assert(kind(m@));
    assert(has_action(listed, 0, m@));
    let k = choose|k: int| 0 <= k < listed.len() && (#[trigger] listed[k])@ == m@;
    assert(listed[k]@ == m@);
}

/// A legal move stands somewhere in the order, or one that does the same.
proof fn lemma_in_order_somewhere(bb: BitBoard, listed: Seq<BitMove>, sorted: Seq<BitMove>, m: BitMove) -> (i: int)
    requires
        lists_legal(listed, bb@),
        is_legal(bb, m),
        sorted.to_multiset() == listed.to_multiset(),
    ensures
        0 <= i < sorted.len(),
        bb.played(sorted[i]) == bb.played(m),
        listed.len() > 0,
{
    reveal(is_legal);
    lemma_listed(bb, listed, m);
    let k = choose|k: int| 0 <= k < listed.len() && (#[trigger] listed[k])@ == m@;
    let x = listed[k];
    listed.to_multiset_ensures();
    sorted.to_multiset_ensures();
    assert(listed.contains(x));
    assert(sorted.to_multiset().count(x) > 0);
    assert(sorted.contains(x));
    let i = choose|i: int| 0 <= i < sorted.len() && sorted[i] == x;
    lemma_played_same(bb, x, m);
    i
}

/// The value of a search without pruning is minimax: white gets the highest of the
/// values behind its moves and black the lowest, and some move has it. A side
/// without moves is judged by the evaluation.
pub proof fn law_plain_values_are_minimax(r: PlainRules, b: BitBoard, d: int, m: BitMove)
    requires
        d > 0,
        b.white_scored < 4,
        b.black_scored < 4,
        is_legal(b, m),
    ensures
        b.current_player == Player::White ==> plain_value(r, b, d, 0) >= plain_value(r, b.played(m), d - 1, 1),
        b.current_player == Player::Black ==> plain_value(r, b, d, 0) <= plain_value(r, b.played(m), d - 1, 1),
        exists|k: BitMove| #[trigger] is_legal(b, k) && plain_value(r, b, d, 0) == plain_value(r, b.played(k), d - 1, 1),
{
    assert(b@.white_scored == b.white_scored && b@.black_scored == b.black_scored);
    lemma_plain_parts(r, b, d, 0);
}

/// The same below the root, for a position that neither a rule nor a table
/// decides.
pub proof fn law_plain_values_below_the_root(r: PlainRules, b: BitBoard, d: int, ply: int, m: BitMove)
    requires
        d > 0,
        ply > 0,
        b.white_scored < 4,
        b.black_scored < 4,
        r.tablebase is None,
        !r.game_history.contains(b.hash),
        r.no_progress_limit == 0 || b.halfmove_clock < r.no_progress_limit,
        is_legal(b, m),
    ensures
        b.current_player == Player::White ==> plain_value(r, b, d, ply) >= plain_value(r, b.played(m), d - 1, ply + 1),
        b.current_player == Player::Black ==> plain_value(r, b, d, ply) <= plain_value(r, b.played(m), d - 1, ply + 1),
        exists|k: BitMove| #[trigger]
            is_legal(b, k) && plain_value(r, b, d, ply) == plain_value(r, b.played(k), d - 1, ply + 1),
{
    assert(b@.white_scored == b.white_scored && b@.black_scored == b.black_scored);
    lemma_plain_parts(r, b, d, ply);
}

/// What a search without pruning makes of the end of a game and of tables: wins
/// count for their side and are worth more the nearer they are, draws cost the
/// player at the root.
pub proof fn law_plain_values_of_ends(r: PlainRules, b: BitBoard, d: int, ply: int, v: u8)
    requires
        d >= 0,
        ply > 0,
        !r.game_history.contains(b.hash),
        r.no_progress_limit == 0 || b.halfmove_clock < r.no_progress_limit,
    ensures
        r.tablebase is None && b.white_scored == 4 ==> plain_value(r, b, d, ply) == 100_000 - ply,
        r.tablebase is None && b.white_scored < 4 && b.black_scored == 4 ==> plain_value(r, b, d, ply) == -100_000 + ply,
        r.tablebase is Some && call_ensures(Tablebase::value, (&r.tablebase->0, &b), Some(v)) && 1 <= v <= 121
            ==> plain_value(r, b, d, ply) == 100_000 - ply - (v - 1),
        r.tablebase is Some && call_ensures(Tablebase::value, (&r.tablebase->0, &b), Some(v)) && 129 <= v <= 249
            ==> plain_value(r, b, d, ply) == -100_000 + ply + (v - 129),
        r.tablebase is Some && call_ensures(Tablebase::value, (&r.tablebase->0, &b), Some(v)) && !(1 <= v <= 121) && !(129 <= v
            <= 249) ==> plain_value(r, b, d, ply) == if r.root == Player::White {
            -r.contempt
        } else {
            r.contempt as int
        },
{
    assert(b@.white_scored == b.white_scored && b@.black_scored == b.black_scored);
    lemma_plain_parts(r, b, d, ply);
}

/// Quiescence never does worse for the side to move than to stand on the
/// evaluation: its value is at least that for white, at most that for black. A
/// barrel move onto the goal row that leads to a better value is taken.
pub proof fn law_quiet_values_stand_or_gain(q: QuietRules, b: BitBoard, m: BitMove)
    requires
        b.white_scored < 4,
        b.black_scored < 4,
        is_legal(b, m),
        !m.pail_only(),
        b.current_player == Player::White ==> m.to_sq() / 6 == 0,
        b.current_player == Player::Black ==> m.to_sq() / 6 == 5,
    ensures
        b.current_player == Player::White ==> quiet_value(q, b, 0) >= heuristic_of(q.weights, b) && quiet_value(q, b, 0)
            >= quiet_value(q, b.played(m), 1),
        b.current_player == Player::Black ==> quiet_value(q, b, 0) <= heuristic_of(q.weights, b) && quiet_value(q, b, 0)
            <= quiet_value(q, b.played(m), 1),
{
    assert(b@.white_scored == b.white_scored && b@.black_scored == b.black_scored);
    lemma_quiet_parts(q, b, 0);
    assert(is_tactical(b, m, q.qs_mode)) by {
        reveal(is_tactical);
    }
}

/// In quiescence a finished game counts for the side with four barrels home, and
/// a barrel that is neither on the goal row nor next to it after its move is
/// never followed.
pub proof fn law_quiet_values_of_ends(q: QuietRules, b: BitBoard, d: int, m: BitMove)
    requires
        d >= 0,
    ensures
        b.white_scored == 4 ==> quiet_value(q, b, d) == 100_000 - (q.ply + d),
        b.white_scored < 4 && b.black_scored == 4 ==> quiet_value(q, b, d) == -100_000 + (q.ply + d),
        is_tactical(b, m, q.qs_mode) && b.current_player == Player::White ==> m.to_sq() / 6 <= 1,
        is_tactical(b, m, q.qs_mode) && b.current_player == Player::Black ==> 5 - m.to_sq() / 6 <= 1,
{
    assert(b@.white_scored == b.white_scored && b@.black_scored == b.black_scored);
    lemma_quiet_ends(q, b, d);
    reveal(is_tactical);
}

/// The rows that a move with its barrel on the square still has to go.
pub open spec fn rows_left(p: Player, s: int) -> int {
    match p {
        Player::White => s / 6,
        Player::Black => 5 - s / 6,
    }
}

/// On its first four levels, with mode 1 on its first six, quiescence takes the best
/// for the side to move of the evaluation and what lies behind the barrel moves that
/// come home, with mode 1 also those that come next to it. From there on it takes
/// the evaluation.
#[verifier::spinoff_prover]
pub proof fn law_quiet_values_are_the_best(q: QuietRules, b: BitBoard, d: int, race: RaceTable, s: i32, m: BitMove)
    requires
        d >= 0,
        b.white_scored < 4,
        b.black_scored < 4,
        call_ensures(EvalWeights::evaluate, (&q.weights, &b, &race), s),
    ensures
        ({
            let v = quiet_value(q, b, d);
            let reach: int = if q.qs_mode == 1 {
                1
            } else {
                0
            };
            let p = b.current_player;
            if d >= 4 + 2 * reach {
                v == s
            } else {
                &&& p == Player::White ==> v >= s
                &&& p == Player::Black ==> v <= s
                &&& is_legal(b, m) && !m.pail_only() && rows_left(p, m.to_sq() as int) <= reach ==> (if p == Player::White {
                    v >= quiet_value(q, b.played(m), d + 1)
                } else {
                    v <= quiet_value(q, b.played(m), d + 1)
                })
                &&& v == s || exists|n: BitMove|
                    {
                        &&& #[trigger] is_legal(b, n)
                        &&& !n.pail_only()
                        &&& rows_left(p, n.to_sq() as int) <= reach
                        &&& v == quiet_value(q, b.played(n), d + 1)
                    }
            }
        }),
{
    assert(b@.white_scored == b.white_scored && b@.black_scored == b.black_scored);
    assert(s == heuristic_of(q.weights, b));
    lemma_quiet_ends(q, b, d);
    if d < qs_cap(q.qs_mode) {
        lemma_quiet_parts(q, b, d);
        let p = b.current_player;
        assert forall|n: BitMove| #[trigger] is_tactical(b, n, q.qs_mode) == (is_legal(b, n)
            && !n.pail_only() && rows_left(p, n.to_sq() as int) <= (if q.qs_mode == 1 {
            1int
        } else {
            0
        })) by {
            reveal(is_tactical);
            if is_legal(b, n) {
                lemma_square_of(b, n);
            }
        }
        let tactical = is_tactical(b, m, q.qs_mode);
        assert(tactical ==> is_legal(b, m));
        if quiet_value(q, b, d) != s {
            let n = choose|n: BitMove| #[trigger]
                is_tactical(b, n, q.qs_mode) && quiet_value(q, b, d) == quiet_value(q, b.played(n), d + 1);
            assert(is_legal(b, n));
        }
    }
}

proof fn lemma_square_of(b: BitBoard, n: BitMove)
    requires
        is_legal(b, n),
    ensures
        0 <= n.to_sq() < 36,
{
    reveal(is_legal);
}

} // verus!
