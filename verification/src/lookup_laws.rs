//! What lookups tell: endgame tables, races, stored scores and output buckets.
use vstd::prelude::*;
use crate::bitboard::BitBoard;
use crate::bitmove::BitMove;
use crate::board::{Board, Player};
use crate::clock::used_up;
use crate::engine::{BitBoardEngine, OutputLayer};
use crate::eval_cache::EvalCache;
use crate::eval_laws::{lemma_races_of, over};
use crate::features::{FeatureSet, NnueConfig};
use crate::heuristic::{heuristic_of, EvalWeights};
use crate::leaf_cache::remembers;
use crate::mirror::color_mirror;
use crate::node::{value_from_tt, value_to_tt, win_score};
use crate::packed::lemma_mirrored;
use crate::phase::Phase;
use crate::race::RaceTable;
use crate::root_walk::Run;
use crate::session::{stands_for, totals, Engine};
use crate::tablebase::Tablebase;
use crate::tt::{slot_for, TTCluster, TTEntry, TranspositionTable};

verus! {

/// The code of the same result for the other side: wins of white are coded from 1
/// to 121, the same wins of black 128 higher.
pub open spec fn other_way(v: u8) -> int {
    if 1 <= v <= 121 {
        v + 128
    } else if 129 <= v <= 249 {
        v - 128
    } else {
        v as int
    }
}

/// A board whose phase is loaded is looked up there. The code 0 stands for what
/// was not solved and 255 for what cannot be: of those the tables say nothing.
#[verifier::spinoff_prover]
pub proof fn law_loaded_phases_answer(tb: Tablebase, bb: BitBoard, p: Phase, i: usize, r: Option<u8>)
    requires
        tb.wf(),
        bb.proper(),
        bb.white_scored < 4,
        bb.black_scored < 4,
        tb.phases@[(4 - bb.white_scored) * 5 + (4 - bb.black_scored)] == Some(p),
        call_ensures(Phase::index, (&p, &bb), Some(i)),
        call_ensures(Tablebase::value, (&tb, &bb), r),
    ensures
        i < p.values@.len(),
        p.values@[i as int] == 0 || p.values@[i as int] == 255 ==> r is None,
        p.values@[i as int] != 0 && p.values@[i as int] != 255 ==> r == Some(p.values@[i as int]),
{
}

/// A board of a phase that is not loaded is looked up with the sides exchanged, if
/// that phase is, and what it says is told of the other side.
#[verifier::spinoff_prover]
pub proof fn law_exchanged_phases_answer(tb: Tablebase, bb: BitBoard, m: BitBoard, p: Phase, i: usize, r: Option<u8>)
    requires
        tb.wf(),
        bb.proper(),
        bb.white_scored < 4,
        bb.black_scored < 4,
        bb.white_scored != bb.black_scored,
        tb.phases@[(4 - bb.white_scored) * 5 + (4 - bb.black_scored)] is None,
        tb.phases@[(4 - bb.black_scored) * 5 + (4 - bb.white_scored)] == Some(p),
        call_ensures(color_mirror, (&bb,), m),
        call_ensures(Phase::index, (&p, &m), Some(i)),
        call_ensures(Tablebase::value, (&tb, &bb), r),
    ensures
        i < p.values@.len(),
        p.values@[i as int] == 0 || p.values@[i as int] == 255 ==> r is None,
        p.values@[i as int] != 0 && p.values@[i as int] != 255 ==> r is Some && r->0 == other_way(p.values@[i as int]),
{
    lemma_mirrored(m, bb);
}

/// Without tables nothing is known of an unfinished game.
pub proof fn law_empty_tables_say_nothing(tb: Tablebase, bb: BitBoard, r: Option<u8>)
    requires
        tb.wf(),
        bb.white_scored < 4,
        bb.black_scored < 4,
        forall|i: int| 0 <= i < 25 ==> tb.phases@[i] is None,
        forall|i: int| 0 <= i < 5 ==> tb.packed@[i] is None,
        call_ensures(Tablebase::value, (&tb, &bb), r),
    ensures
        r is None,
{
    let wr = 4 - bb.white_scored;
    let br = 4 - bb.black_scored;
    assert(1 <= wr <= 4 && 1 <= br <= 4);
    assert(tb.phases@[wr * 5 + br] is None && tb.phases@[br * 5 + wr] is None && tb.packed@[wr] is None);
}

/// A probe tells who wins and in how many moves, or that neither does; without a
/// table that holds the position it tells nothing.
pub proof fn law_probes_tell_who_wins<L: OutputLayer>(e: Engine<L>, board: Board, bb: BitBoard, v: Option<u8>, r: Option<
    (Option<Player>, u8),
>)
    requires
        stands_for(board, bb),
        call_ensures(Engine::<L>::tablebase_probe, (&e, &board), r),
        e.inner.tablebase is Some ==> call_ensures(Tablebase::value, (&e.inner.tablebase->0, &bb), v),
    ensures
        e.inner.tablebase is None || v is None ==> r is None,
        e.inner.tablebase is Some && v is Some ==> r is Some && {
            let (winner, moves) = r->0;
            let code = v->0;
            if 1 <= code <= 121 {
                winner == Some(Player::White) && moves == code - 1
            } else if 129 <= code <= 249 {
                winner == Some(Player::Black) && moves == code - 129
            } else {
                winner is None && moves == 0
            }
        },
{
}

/// The races of a position are those that the race table tells, white's first.
pub proof fn law_races_are_looked_up<L: OutputLayer>(e: Engine<L>, board: Board, bb: BitBoard, wd: u16, bd: u16, r: (u16, u16))
    requires
        stands_for(board, bb),
        bb.wf(),
        call_ensures(RaceTable::side_distance, (&e.inner.race, &bb, Player::White), wd),
        call_ensures(RaceTable::side_distance, (&e.inner.race, &bb, Player::Black), bd),
        call_ensures(Engine::<L>::race_distances, (&e, &board), r),
    ensures
        r == (wd, bd),
{
    lemma_races_of(bb, wd, bd);
}

/// A position is evaluated with the engine's weights.
pub proof fn law_positions_are_evaluated<L: OutputLayer>(e: Engine<L>, board: Board, bb: BitBoard, race: RaceTable, r: i32, s: i32, t: i32)
    requires
        stands_for(board, bb),
        call_ensures(Engine::<L>::evaluate_position, (&e, &board), r),
        call_ensures(BitBoardEngine::<L>::evaluate_heuristic, (&e.inner, &bb), s),
        call_ensures(EvalWeights::evaluate, (&e.inner.weights, &bb, &race), t),
    ensures
        r == t,
        s == t,
{
    assert(t == heuristic_of(e.inner.weights, bb));
}

/// A win is scored the higher the sooner it comes, and as much below zero for
/// black as above for white. Stored with a position, it counts from there and not
/// from the root; any other score is stored as it is.
pub proof fn law_stored_wins_count_from_the_position(winner: Player, ply: i32, moves: i32, v: i32, kept: i32, back: i32, u: i32, mild: i32)
    requires
        0 <= ply,
        0 <= moves,
        ply + moves < 10_000,
        call_ensures(win_score, (winner, (ply + moves) as i32), v),
        call_ensures(value_to_tt, (v, ply), kept),
        call_ensures(value_from_tt, (kept, ply), back),
        -90_000 <= u <= 90_000,
        call_ensures(value_to_tt, (u, ply), mild),
    ensures
        winner == Player::White ==> v == 100_000 - ply - moves && kept == 100_000 - moves,
        winner == Player::Black ==> v == -100_000 + ply + moves && kept == -100_000 + moves,
        back == v,
        mild == u,
        call_ensures(value_from_tt, (u, ply), back) ==> back == u,
{
}

/// A network with a head for every pair of scores has a different one for each.
pub proof fn law_heads_tell_scores_apart(c: NnueConfig, a: BitBoard, b: BitBoard, i: usize, j: usize)
    requires
        c.output_buckets >= 25,
        a.white_scored <= 4,
        a.black_scored <= 4,
        b.white_scored <= 4,
        b.black_scored <= 4,
        call_ensures(NnueConfig::output_bucket, (&c, &a), i),
        call_ensures(NnueConfig::output_bucket, (&c, &b), j),
    ensures
        i < 25,
        i == j <==> a.white_scored == b.white_scored && a.black_scored == b.black_scored,
        b.white_scored == a.white_scored + 1 && b.black_scored == a.black_scored ==> j == i + 5,
        b.black_scored == a.black_scored + 1 && b.white_scored == a.white_scored ==> j == i + 1,
{
}

/// Where the features do not go by the own pail, or it has not moved, the sums can
/// be updated; else they cannot.
pub proof fn law_pails_change_buckets(c: NnueConfig, a: BitBoard, b: BitBoard, p: Player, r: bool)
    requires
        call_ensures(NnueConfig::bucket_changed, (&c, &a, &b, p), r),
    ensures
        r ==> c.feature_set == FeatureSet::HalfPail,
        c.feature_set == FeatureSet::HalfPail && p == Player::White ==> r == (a.white_pail != b.white_pail),
        c.feature_set == FeatureSet::HalfPail && p == Player::Black ==> r == (a.black_pail != b.black_pail),
        !r && c.feature_set == FeatureSet::HalfPail ==> c.bucket_of(a, p) == c.bucket_of(b, p),
{
}

/// A budget of time is used up from its end on, and one of nothing at once.
pub proof fn law_time_runs_out(elapsed: u128, later: u128, budget: u64, r: bool, s: bool)
    requires
        elapsed <= later,
        call_ensures(used_up, (elapsed, budget), r),
        call_ensures(used_up, (later, budget), s),
    ensures
        r ==> s,
        budget == 0 ==> r,
        elapsed == budget ==> r,
        elapsed < budget ==> !r,
{
}

/// A cache tells of a position only what was stored under its hash since it was last
/// cleared, and a table only an entry with its hash.
pub proof fn law_lookups_go_by_the_hash(c: EvalCache, t: TranspositionTable, hash: u64)
    requires
        c.wf(),
        t.wf(),
    ensures
        c.find(hash) matches Some(s) ==> exists|i: int|
            0 <= i < 65536 && (#[trigger] c.entries@[i]).hash == hash && c.entries@[i].score == s && c.entries@[i].generation
                == c.generation,
        t.find(hash) matches Some(e) ==> e.hash == hash && exists|i: int, k: int|
            0 <= i < t.clusters@.len() && 0 <= k < 3 && #[trigger] t.clusters@[i].entries@[k] == Some(e),
{
    let i = hash as int % 65536;
    if c.find(hash) is Some {
        assert(c.entries@[i].hash == hash);
    }
    let j = hash as int % t.clusters@.len() as int;
    if t.find(hash) is Some {
        let x = t.clusters@[j].entries@;
        assert(t.find(hash) == x[0] || t.find(hash) == x[1] || t.find(hash) == x[2]);
    }
}

/// What was remembered last is known. Everything else stays known until a hundred
/// thousand positions are; then all of it is forgotten.
pub proof fn law_full_caches_start_over<T>(m: Map<u64, T>, hash: u64, x: T, other: u64)
    requires
        m.dom().finite(),
        other != hash,
    ensures
        remembers(m, hash, x).dom().contains(hash),
        remembers(m, hash, x)[hash] == x,
        m.len() < 100_000 ==> remembers(m, hash, x).dom().contains(other) == m.dom().contains(other),
        m.len() < 100_000 && m.dom().contains(other) ==> remembers(m, hash, x)[other] == m[other],
        m.len() >= 100_000 ==> !remembers(m, hash, x).dom().contains(other),
{
}

/// Where three other positions fill a cluster, the entry that leaves is the one with
/// the least depth, eight taken off for every search since it was stored; of equals
/// the first leaves.
pub proof fn law_the_weakest_entry_leaves(c: TTCluster, hash: u64, now: u8, k: int)
    requires
        0 <= k < 3,
        forall|j: int| 0 <= j < 3 ==> (#[trigger] c.entries@[j]) is Some && c.entries@[j]->0.hash != hash,
    ensures
        ({
            let s = slot_for(c, hash, now);
            let worth = |x: TTEntry| x.depth - 8 * ((now - x.generation) % 256);
            &&& worth(c.entries@[s]->0) <= worth(c.entries@[k]->0)
            &&& k < s ==> worth(c.entries@[s]->0) < worth(c.entries@[k]->0)
        }),
{
    assert(c.entries@[0] is Some && c.entries@[1] is Some && c.entries@[2] is Some);
}

/// Ordered moves are sorted by their scores, the best first, and none is lost.
#[verifier::spinoff_prover]
pub proof fn law_moves_are_sorted<L: OutputLayer>(
    e: BitBoardEngine<L>,
    moves: Vec<BitMove>,
    p: Player,
    depth: usize,
    tt_move: Option<BitMove>,
    r: Vec<BitMove>,
    i: int,
    j: int,
    x: i32,
    y: i32,
)
    requires
        call_ensures(BitBoardEngine::<L>::order_moves, (&e, moves, p, depth, tt_move), r),
        0 <= i < j < r@.len(),
        call_ensures(BitBoardEngine::<L>::score_move, (&e, &r@[i], p, depth, tt_move), x),
        call_ensures(BitBoardEngine::<L>::score_move, (&e, &r@[j], p, depth, tt_move), y),
    ensures
        x >= y,
        r@.to_multiset() == moves@.to_multiset(),
{
}

/// The counters of a result are the sums of those of its searches, as far as they fit.
pub proof fn law_searches_are_totalled<L: OutputLayer>(runs: Seq<Run<L>>)
    ensures
        ({
            let nodes = over(|i: int| runs[i].to.nodes_searched as int, runs.len());
            let quiet = over(|i: int| runs[i].to.quiesce_nodes as int, runs.len());
            let cuts = over(|i: int| runs[i].to.cutoffs as int, runs.len());
            let hits = over(|i: int| runs[i].to.tt_hits as int, runs.len());
            &&& nodes <= u64::MAX ==> totals(runs).0 == nodes
            &&& cuts <= u64::MAX ==> totals(runs).1 == cuts
            &&& hits <= u64::MAX ==> totals(runs).2 == hits
            &&& quiet <= u64::MAX ==> totals(runs).3 == quiet
        }),
{
    lemma_totals(
        runs,
        runs,
        |i: int| runs[i].to.nodes_searched as int,
        |i: int| runs[i].to.cutoffs as int,
        |i: int| runs[i].to.tt_hits as int,
        |i: int| runs[i].to.quiesce_nodes as int,
    );
}

proof fn lemma_totals<L: OutputLayer>(
    all: Seq<Run<L>>,
    runs: Seq<Run<L>>,
    n: spec_fn(int) -> int,
    c: spec_fn(int) -> int,
    t: spec_fn(int) -> int,
    q: spec_fn(int) -> int,
)
    requires
        runs.len() <= all.len(),
        forall|i: int| 0 <= i < runs.len() ==> #[trigger] runs[i] == all[i],
        forall|i: int| #[trigger] n(i) == all[i].to.nodes_searched,
        forall|i: int| #[trigger] c(i) == all[i].to.cutoffs,
        forall|i: int| #[trigger] t(i) == all[i].to.tt_hits,
        forall|i: int| #[trigger] q(i) == all[i].to.quiesce_nodes,
    ensures
        over(n, runs.len()) >= 0 && over(c, runs.len()) >= 0 && over(t, runs.len()) >= 0 && over(q, runs.len()) >= 0,
        over(n, runs.len()) <= u64::MAX ==> totals(runs).0 == over(n, runs.len()),
        over(c, runs.len()) <= u64::MAX ==> totals(runs).1 == over(c, runs.len()),
        over(t, runs.len()) <= u64::MAX ==> totals(runs).2 == over(t, runs.len()),
        over(q, runs.len()) <= u64::MAX ==> totals(runs).3 == over(q, runs.len()),
    decreases runs.len(),
{
    if runs.len() > 0 {
        let k = runs.len() - 1;
        lemma_totals(all, runs.drop_last(), n, c, t, q);
        assert(runs.last() == all[k]);
        assert(n(k) == all[k].to.nodes_searched && c(k) == all[k].to.cutoffs && t(k) == all[k].to.tt_hits && q(k)
            == all[k].to.quiesce_nodes);
    }
}

} // verus!
