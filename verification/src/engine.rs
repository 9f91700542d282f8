//! The search engine's state and settings.
use vstd::prelude::*;
use std::sync::atomic::AtomicBool;
use std::sync::Arc;
use crate::accumulator::DualAccumulatorStack;
use crate::bitboard::BitBoard;
use crate::bitmove::BitMove;
use crate::board::Player;
use crate::clock::Deadline;
use crate::eval_cache::EvalCache;
use crate::heuristic::{EvalWeights, EVAL_LIMIT};
use crate::network::SparseNNUE;
use crate::race::RaceTable;
use crate::squares::MAX_DEPTH;
use crate::tablebase::Tablebase;
use crate::tt::{TTEntry, TranspositionTable};

verus! {

/// A won position at distance `d` from the root scores `WIN_SCORE - d`.
pub const WIN_SCORE: i32 = 100_000;

/// Scores beyond this are wins.
pub const WIN_BOUND: i32 = 90_000;

/// No score of the search is larger in size.
pub const SCORE_LIMIT: i32 = 1_000_000_000;

/// Number of buckets of the correction history.
pub const CORRECTION_TABLE_SIZE: usize = 16384;

/// Entries of a table by origin and destination.
pub const HISTORY_SIZE: usize = 1296;

/// Late move reductions by depth and move number: the natural logarithms of
/// both multiplied and divided by 1.01, fractions dropped.
pub const LMR_TABLE: [[u8; 64]; 32] = [
    [0, 0, 0, 0, 0, 0, 0, 0, 0, 0, 0, 0, 0, 0, 0, 0, 0, 0, 0, 0, 0, 0, 0, 0, 0, 0, 0, 0, 0, 0, 0, 0, 0, 0, 0, 0, 0, 0, 0, 0, 0, 0, 0, 0, 0, 0, 0, 0, 0, 0, 0, 0, 0, 0, 0, 0, 0, 0, 0, 0, 0, 0, 0, 0],
    [0, 0, 0, 0, 0, 0, 0, 0, 0, 0, 0, 0, 0, 0, 0, 0, 0, 0, 0, 0, 0, 0, 0, 0, 0, 0, 0, 0, 0, 0, 0, 0, 0, 0, 0, 0, 0, 0, 0, 0, 0, 0, 0, 0, 0, 0, 0, 0, 0, 0, 0, 0, 0, 0, 0, 0, 0, 0, 0, 0, 0, 0, 0, 0],
    [0, 0, 0, 0, 0, 1, 1, 1, 1, 1, 1, 1, 1, 1, 1, 1, 1, 1, 1, 2, 2, 2, 2, 2, 2, 2, 2, 2, 2, 2, 2, 2, 2, 2, 2, 2, 2, 2, 2, 2, 2, 2, 2, 2, 2, 2, 2, 2, 2, 2, 2, 2, 2, 2, 2, 2, 2, 2, 2, 2, 2, 2, 2, 2],
    [0, 0, 0, 1, 1, 1, 1, 2, 2, 2, 2, 2, 2, 2, 2, 2, 3, 3, 3, 3, 3, 3, 3, 3, 3, 3, 3, 3, 3, 3, 3, 3, 3, 3, 3, 3, 3, 3, 3, 3, 4, 4, 4, 4, 4, 4, 4, 4, 4, 4, 4, 4, 4, 4, 4, 4, 4, 4, 4, 4, 4, 4, 4, 4],
    [0, 0, 0, 1, 1, 2, 2, 2, 2, 3, 3, 3, 3, 3, 3, 3, 3, 3, 3, 4, 4, 4, 4, 4, 4, 4, 4, 4, 4, 4, 4, 4, 4, 4, 4, 4, 4, 4, 4, 5, 5, 5, 5, 5, 5, 5, 5, 5, 5, 5, 5, 5, 5, 5, 5, 5, 5, 5, 5, 5, 5, 5, 5, 5],
    [0, 0, 1, 1, 2, 2, 2, 3, 3, 3, 3, 3, 3, 4, 4, 4, 4, 4, 4, 4, 4, 4, 4, 4, 5, 5, 5, 5, 5, 5, 5, 5, 5, 5, 5, 5, 5, 5, 5, 5, 5, 5, 5, 5, 6, 6, 6, 6, 6, 6, 6, 6, 6, 6, 6, 6, 6, 6, 6, 6, 6, 6, 6, 6],
    [0, 0, 1, 1, 2, 2, 3, 3, 3, 3, 4, 4, 4, 4, 4, 4, 4, 5, 5, 5, 5, 5, 5, 5, 5, 5, 5, 5, 5, 5, 6, 6, 6, 6, 6, 6, 6, 6, 6, 6, 6, 6, 6, 6, 6, 6, 6, 6, 6, 6, 6, 6, 7, 7, 7, 7, 7, 7, 7, 7, 7, 7, 7, 7],
    [0, 0, 1, 2, 2, 3, 3, 3, 4, 4, 4, 4, 4, 4, 5, 5, 5, 5, 5, 5, 5, 5, 5, 6, 6, 6, 6, 6, 6, 6, 6, 6, 6, 6, 6, 6, 6, 6, 7, 7, 7, 7, 7, 7, 7, 7, 7, 7, 7, 7, 7, 7, 7, 7, 7, 7, 7, 7, 7, 7, 7, 7, 7, 7],
    [0, 0, 1, 2, 2, 3, 3, 4, 4, 4, 4, 4, 5, 5, 5, 5, 5, 5, 5, 6, 6, 6, 6, 6, 6, 6, 6, 6, 6, 6, 7, 7, 7, 7, 7, 7, 7, 7, 7, 7, 7, 7, 7, 7, 7, 7, 7, 7, 7, 8, 8, 8, 8, 8, 8, 8, 8, 8, 8, 8, 8, 8, 8, 8],
    [0, 0, 1, 2, 3, 3, 3, 4, 4, 4, 5, 5, 5, 5, 5, 5, 6, 6, 6, 6, 6, 6, 6, 6, 6, 7, 7, 7, 7, 7, 7, 7, 7, 7, 7, 7, 7, 7, 7, 7, 8, 8, 8, 8, 8, 8, 8, 8, 8, 8, 8, 8, 8, 8, 8, 8, 8, 8, 8, 8, 8, 8, 8, 9],
    [0, 0, 1, 2, 3, 3, 4, 4, 4, 5, 5, 5, 5, 5, 6, 6, 6, 6, 6, 6, 6, 6, 7, 7, 7, 7, 7, 7, 7, 7, 7, 7, 7, 7, 8, 8, 8, 8, 8, 8, 8, 8, 8, 8, 8, 8, 8, 8, 8, 8, 8, 8, 9, 9, 9, 9, 9, 9, 9, 9, 9, 9, 9, 9],
    [0, 0, 1, 2, 3, 3, 4, 4, 4, 5, 5, 5, 5, 6, 6, 6, 6, 6, 6, 6, 7, 7, 7, 7, 7, 7, 7, 7, 7, 7, 8, 8, 8, 8, 8, 8, 8, 8, 8, 8, 8, 8, 8, 8, 8, 9, 9, 9, 9, 9, 9, 9, 9, 9, 9, 9, 9, 9, 9, 9, 9, 9, 9, 9],
    [0, 0, 1, 2, 3, 3, 4, 4, 5, 5, 5, 5, 6, 6, 6, 6, 6, 6, 7, 7, 7, 7, 7, 7, 7, 7, 8, 8, 8, 8, 8, 8, 8, 8, 8, 8, 8, 8, 8, 9, 9, 9, 9, 9, 9, 9, 9, 9, 9, 9, 9, 9, 9, 9, 9, 9, 9, 9, 9, 10, 10, 10, 10, 10],
    [0, 0, 1, 2, 3, 4, 4, 4, 5, 5, 5, 6, 6, 6, 6, 6, 7, 7, 7, 7, 7, 7, 7, 7, 8, 8, 8, 8, 8, 8, 8, 8, 8, 8, 8, 9, 9, 9, 9, 9, 9, 9, 9, 9, 9, 9, 9, 9, 9, 9, 9, 9, 10, 10, 10, 10, 10, 10, 10, 10, 10, 10, 10, 10],
    [0, 0, 1, 2, 3, 4, 4, 5, 5, 5, 6, 6, 6, 6, 6, 7, 7, 7, 7, 7, 7, 7, 8, 8, 8, 8, 8, 8, 8, 8, 8, 8, 9, 9, 9, 9, 9, 9, 9, 9, 9, 9, 9, 9, 9, 9, 10, 10, 10, 10, 10, 10, 10, 10, 10, 10, 10, 10, 10, 10, 10, 10, 10, 10],
    [0, 0, 1, 2, 3, 4, 4, 5, 5, 5, 6, 6, 6, 6, 7, 7, 7, 7, 7, 7, 8, 8, 8, 8, 8, 8, 8, 8, 8, 9, 9, 9, 9, 9, 9, 9, 9, 9, 9, 9, 9, 9, 10, 10, 10, 10, 10, 10, 10, 10, 10, 10, 10, 10, 10, 10, 10, 10, 10, 10, 10, 11, 11, 11],
    [0, 0, 1, 3, 3, 4, 4, 5, 5, 6, 6, 6, 6, 7, 7, 7, 7, 7, 7, 8, 8, 8, 8, 8, 8, 8, 8, 9, 9, 9, 9, 9, 9, 9, 9, 9, 9, 9, 9, 10, 10, 10, 10, 10, 10, 10, 10, 10, 10, 10, 10, 10, 10, 10, 10, 11, 11, 11, 11, 11, 11, 11, 11, 11],
    [0, 0, 1, 3, 3, 4, 5, 5, 5, 6, 6, 6, 6, 7, 7, 7, 7, 7, 8, 8, 8, 8, 8, 8, 8, 9, 9, 9, 9, 9, 9, 9, 9, 9, 9, 9, 10, 10, 10, 10, 10, 10, 10, 10, 10, 10, 10, 10, 10, 10, 10, 11, 11, 11, 11, 11, 11, 11, 11, 11, 11, 11, 11, 11],
    [0, 0, 1, 3, 3, 4, 5, 5, 5, 6, 6, 6, 7, 7, 7, 7, 7, 8, 8, 8, 8, 8, 8, 8, 9, 9, 9, 9, 9, 9, 9, 9, 9, 10, 10, 10, 10, 10, 10, 10, 10, 10, 10, 10, 10, 10, 10, 11, 11, 11, 11, 11, 11, 11, 11, 11, 11, 11, 11, 11, 11, 11, 11, 11],
    [0, 0, 2, 3, 4, 4, 5, 5, 6, 6, 6, 6, 7, 7, 7, 7, 8, 8, 8, 8, 8, 8, 9, 9, 9, 9, 9, 9, 9, 9, 9, 10, 10, 10, 10, 10, 10, 10, 10, 10, 10, 10, 10, 10, 11, 11, 11, 11, 11, 11, 11, 11, 11, 11, 11, 11, 11, 11, 11, 11, 11, 11, 12, 12],
    [0, 0, 2, 3, 4, 4, 5, 5, 6, 6, 6, 7, 7, 7, 7, 8, 8, 8, 8, 8, 8, 9, 9, 9, 9, 9, 9, 9, 9, 9, 10, 10, 10, 10, 10, 10, 10, 10, 10, 10, 10, 11, 11, 11, 11, 11, 11, 11, 11, 11, 11, 11, 11, 11, 11, 11, 11, 11, 12, 12, 12, 12, 12, 12],
    [0, 0, 2, 3, 4, 4, 5, 5, 6, 6, 6, 7, 7, 7, 7, 8, 8, 8, 8, 8, 9, 9, 9, 9, 9, 9, 9, 9, 10, 10, 10, 10, 10, 10, 10, 10, 10, 10, 10, 11, 11, 11, 11, 11, 11, 11, 11, 11, 11, 11, 11, 11, 11, 11, 12, 12, 12, 12, 12, 12, 12, 12, 12, 12],
    [0, 0, 2, 3, 4, 4, 5, 5, 6, 6, 7, 7, 7, 7, 8, 8, 8, 8, 8, 9, 9, 9, 9, 9, 9, 9, 9, 10, 10, 10, 10, 10, 10, 10, 10, 10, 10, 11, 11, 11, 11, 11, 11, 11, 11, 11, 11, 11, 11, 11, 11, 12, 12, 12, 12, 12, 12, 12, 12, 12, 12, 12, 12, 12],
    [0, 0, 2, 3, 4, 4, 5, 6, 6, 6, 7, 7, 7, 7, 8, 8, 8, 8, 8, 9, 9, 9, 9, 9, 9, 9, 10, 10, 10, 10, 10, 10, 10, 10, 10, 11, 11, 11, 11, 11, 11, 11, 11, 11, 11, 11, 11, 11, 12, 12, 12, 12, 12, 12, 12, 12, 12, 12, 12, 12, 12, 12, 12, 12],
    [0, 0, 2, 3, 4, 5, 5, 6, 6, 6, 7, 7, 7, 8, 8, 8, 8, 8, 9, 9, 9, 9, 9, 9, 10, 10, 10, 10, 10, 10, 10, 10, 10, 11, 11, 11, 11, 11, 11, 11, 11, 11, 11, 11, 11, 11, 12, 12, 12, 12, 12, 12, 12, 12, 12, 12, 12, 12, 12, 12, 12, 12, 12, 13],
    [0, 0, 2, 3, 4, 5, 5, 6, 6, 7, 7, 7, 7, 8, 8, 8, 8, 9, 9, 9, 9, 9, 9, 9, 10, 10, 10, 10, 10, 10, 10, 10, 11, 11, 11, 11, 11, 11, 11, 11, 11, 11, 11, 11, 12, 12, 12, 12, 12, 12, 12, 12, 12, 12, 12, 12, 12, 12, 12, 12, 13, 13, 13, 13],
    [0, 0, 2, 3, 4, 5, 5, 6, 6, 7, 7, 7, 8, 8, 8, 8, 8, 9, 9, 9, 9, 9, 9, 10, 10, 10, 10, 10, 10, 10, 10, 11, 11, 11, 11, 11, 11, 11, 11, 11, 11, 11, 12, 12, 12, 12, 12, 12, 12, 12, 12, 12, 12, 12, 12, 12, 12, 13, 13, 13, 13, 13, 13, 13],
    [0, 0, 2, 3, 4, 5, 5, 6, 6, 7, 7, 7, 8, 8, 8, 8, 9, 9, 9, 9, 9, 9, 10, 10, 10, 10, 10, 10, 10, 10, 11, 11, 11, 11, 11, 11, 11, 11, 11, 11, 12, 12, 12, 12, 12, 12, 12, 12, 12, 12, 12, 12, 12, 12, 13, 13, 13, 13, 13, 13, 13, 13, 13, 13],
    [0, 0, 2, 3, 4, 5, 5, 6, 6, 7, 7, 7, 8, 8, 8, 8, 9, 9, 9, 9, 9, 10, 10, 10, 10, 10, 10, 10, 10, 11, 11, 11, 11, 11, 11, 11, 11, 11, 12, 12, 12, 12, 12, 12, 12, 12, 12, 12, 12, 12, 12, 12, 13, 13, 13, 13, 13, 13, 13, 13, 13, 13, 13, 13],
    [0, 0, 2, 3, 4, 5, 5, 6, 6, 7, 7, 7, 8, 8, 8, 9, 9, 9, 9, 9, 9, 10, 10, 10, 10, 10, 10, 10, 11, 11, 11, 11, 11, 11, 11, 11, 11, 12, 12, 12, 12, 12, 12, 12, 12, 12, 12, 12, 12, 12, 13, 13, 13, 13, 13, 13, 13, 13, 13, 13, 13, 13, 13, 13],
    [0, 0, 2, 3, 4, 5, 6, 6, 7, 7, 7, 8, 8, 8, 8, 9, 9, 9, 9, 9, 10, 10, 10, 10, 10, 10, 10, 11, 11, 11, 11, 11, 11, 11, 11, 11, 12, 12, 12, 12, 12, 12, 12, 12, 12, 12, 12, 12, 13, 13, 13, 13, 13, 13, 13, 13, 13, 13, 13, 13, 13, 13, 13, 13],
    [0, 0, 2, 3, 4, 5, 6, 6, 7, 7, 7, 8, 8, 8, 8, 9, 9, 9, 9, 10, 10, 10, 10, 10, 10, 10, 11, 11, 11, 11, 11, 11, 11, 11, 11, 12, 12, 12, 12, 12, 12, 12, 12, 12, 12, 12, 13, 13, 13, 13, 13, 13, 13, 13, 13, 13, 13, 13, 13, 13, 13, 13, 14, 14],
];

/// The last layer of a network, which maps the second layer's sums of an
/// output head to centipawns.
pub trait OutputLayer {
    fn centipawns(&self, head: usize, sums: &Vec<i32>) -> i32;
}

/// The last layer of an engine without a network.
pub struct NoOutput;

impl OutputLayer for NoOutput {
    fn centipawns(&self, _head: usize, _sums: &Vec<i32>) -> i32 {
        0
    }
}

/// Search constants.
#[derive(Clone, Copy, PartialEq, Eq, Debug)]
pub struct SearchKnobs {
    /// Reverse futility margin per ply of depth, 0 for off.
    pub rfp_margin: i32,
    /// Late move pruning starts after this many moves plus depth squared, 0
    /// for off.
    pub lmp_base: i32,
    /// 1: quiescence also searches moves to the row before the goal; 2: only
    /// scoring moves.
    pub qs_mode: i32,
    /// Half the first aspiration window.
    pub asp_delta: i32,
    pub razor_base: i32,
    pub razor_slope: i32,
    pub nmp_margin: i32,
    pub nmp_boost_margin: i32,
    /// Percentage applied to the futility margins.
    pub fut_scale: i32,
    /// Hundredfold divisor of the reduction table.
    pub lmr_div: i32,
    pub lmr_hist_good: i32,
    pub lmr_hist_bad: i32,
    /// Reduce by one from this depth on without a table move.
    pub iir_depth: i32,
}

/// A count and one more, held at the end of its range.
pub open spec fn one_more(n: u64) -> int {
    if n == u64::MAX {
        u64::MAX as int
    } else {
        n + 1
    }
}

/// The number lies within these bounds on both sides of zero.
pub open spec fn within_size(x: i32, most: int) -> bool {
    -most <= x <= most
}

impl SearchKnobs {
    /// No margin leaves the range of 32 bits: a reverse futility margin counts up
    /// to eight times next to a score, a window's half is doubled twice, a razor
    /// slope counts three times next to an evaluation, and a futility margin of
    /// 950 is scaled in hundredths.
    pub open spec fn ok(&self) -> bool {
        &&& self.rfp_margin <= 120_000_000
        &&& self.asp_delta <= 250_000_000
        &&& within_size(self.razor_base, 600_000_000)
        &&& within_size(self.razor_slope, 200_000_000)
        &&& within_size(self.nmp_margin, 1_000_000_000)
        &&& within_size(self.nmp_boost_margin, 1_000_000_000)
        &&& within_size(self.fut_scale, 2_260_000)
    }

    /// Whether no margin leaves the range of 32 bits.
    pub fn fits(&self) -> (r: bool)
        ensures
            r == self.ok(),
    {
        self.rfp_margin <= 120_000_000 && self.asp_delta <= 250_000_000 && self.razor_base >= -600_000_000
            && self.razor_base <= 600_000_000 && self.razor_slope >= -200_000_000 && self.razor_slope <= 200_000_000
            && self.nmp_margin >= -1_000_000_000 && self.nmp_margin <= 1_000_000_000 && self.nmp_boost_margin
            >= -1_000_000_000 && self.nmp_boost_margin <= 1_000_000_000 && self.fut_scale >= -2_260_000
            && self.fut_scale <= 2_260_000
    }

    /// The tuned constants.
    pub open spec fn spec_tuned() -> SearchKnobs {
        SearchKnobs {
            rfp_margin: 63,
            lmp_base: 7,
            qs_mode: 2,
            asp_delta: 29,
            razor_base: 198,
            razor_slope: 137,
            nmp_margin: 49,
            nmp_boost_margin: 161,
            fut_scale: 104,
            lmr_div: 101,
            lmr_hist_good: 877,
            lmr_hist_bad: -559i32,
            iir_depth: 3,
        }
    }

    /// The tuned constants.
    pub fn tuned() -> (r: Self)
        ensures
            r.ok(),
            r == SearchKnobs::spec_tuned(),
    {
        SearchKnobs {
            rfp_margin: 63,
            lmp_base: 7,
            qs_mode: 2,
            asp_delta: 29,
            razor_base: 198,
            razor_slope: 137,
            nmp_margin: 49,
            nmp_boost_margin: 161,
            fut_scale: 104,
            lmr_div: 101,
            lmr_hist_good: 877,
            lmr_hist_bad: -559,
            iir_depth: 3,
        }
    }
}

/// Searches for the best move with alpha-beta and a table of positions.
pub struct BitBoardEngine<L: OutputLayer> {
    pub nodes_searched: u64,
    pub cutoffs: u64,
    pub tt_hits: u64,
    pub quiesce_nodes: u64,
    pub eval_cache_hits: u64,
    pub tb_hits: u64,
    pub tt: TranspositionTable,
    pub eval_cache: EvalCache,
    /// Two moves per depth that recently cut off.
    pub killer_moves: Vec<(Option<BitMove>, Option<BitMove>)>,
    /// Cutoff credit by origin and destination.
    pub history: Vec<i32>,
    /// Cutoff credit by the previous move's destination and this one's.
    pub cont_history: Vec<i32>,
    /// Error of the static evaluation per bucket of hashes.
    pub correction_history: Vec<i32>,
    pub prev_move: Option<BitMove>,
    pub nnue: Option<SparseNNUE>,
    pub output: L,
    pub tablebase: Option<Tablebase>,
    pub acc_stack: DualAccumulatorStack,
    pub deadline: Option<Deadline>,
    pub nodes_since_check: u32,
    pub search_stopped: bool,
    pub last_completed_depth: u8,
    pub stop_flag: Arc<AtomicBool>,
    pub lmr_table: [[u8; 64]; 32],
    /// Hashes of earlier positions of the game.
    pub game_history: Vec<u64>,
    /// Hashes of the positions from the root to the current node.
    pub path_hashes: Vec<u64>,
    /// How much the side at the root dislikes draws.
    pub contempt: i32,
    /// Barrel moves without progress that make a draw, 0 for off.
    pub no_progress_limit: u16,
    pub root_player: Player,
    pub weights: EvalWeights,
    pub knobs: SearchKnobs,
    pub race: RaceTable,
}

/// Some unfinished game position with this hash allows the move.
pub open spec fn legal_for_hash(hash: u64, m: BitMove) -> bool {
    m.valid() && m.single() && exists|b: BitBoard|
        b.wf() && b.hash == hash && b@.winner() is None && #[trigger] b@.legal(m@)
}

pub open spec fn score_ok(s: int) -> bool {
    -SCORE_LIMIT <= s <= SCORE_LIMIT
}

/// A stored entry has a bounded score and a move that some position with its
/// hash allows.
pub open spec fn entry_ok(e: TTEntry) -> bool {
    score_ok(e.score as int) && e.best_move is Some && legal_for_hash(e.hash, e.best_move->0)
}

pub open spec fn slot_ok(e: Option<TTEntry>) -> bool {
    e matches Some(x) ==> entry_ok(x)
}

pub open spec fn table_ok(t: TranspositionTable) -> bool {
    t.wf() && forall|i: int, k: int|
        0 <= i < t.clusters@.len() && 0 <= k < 3 ==> slot_ok(#[trigger] t.clusters@[i].entries@[k])
}

pub open spec fn cache_ok(c: EvalCache) -> bool {
    c.wf() && forall|i: int|
        0 <= i < c.entries@.len() ==> -EVAL_LIMIT <= (#[trigger] c.entries@[i]).score <= EVAL_LIMIT
}

/// Every value of a table lies within its bounds.
pub open spec fn within(v: Seq<i32>, n: int, lo: int, hi: int) -> bool {
    v.len() == n && forall|i: int| 0 <= i < n ==> lo <= #[trigger] v[i] <= hi
}

/// What no search changes.
pub struct Fixed<L> {
    pub nnue: Option<SparseNNUE>,
    pub output: L,
    pub tablebase: Option<Tablebase>,
    pub lmr_table: [[u8; 64]; 32],
    pub game_history: Seq<u64>,
    pub contempt: i32,
    pub no_progress_limit: u16,
    pub weights: EvalWeights,
    pub knobs: SearchKnobs,
    pub race: RaceTable,
}

impl<L: OutputLayer> BitBoardEngine<L> {
    pub open spec fn fixed(&self) -> Fixed<L> {
        Fixed {
            nnue: self.nnue,
            output: self.output,
            tablebase: self.tablebase,
            lmr_table: self.lmr_table,
            game_history: self.game_history@,
            contempt: self.contempt,
            no_progress_limit: self.no_progress_limit,
            weights: self.weights,
            knobs: self.knobs,
            race: self.race,
        }
    }

    /// The settings are usable.
    pub open spec fn settings_ok(&self) -> bool {
        &&& self.weights.ok()
        &&& self.knobs.ok()
        &&& score_ok(self.contempt as int)
        &&& self.race.wf()
        &&& self.nnue matches Some(net) ==> net.wf()
        &&& self.tablebase matches Some(tb) ==> tb.wf()
    }

    /// The tables the search fills are sound.
    #[verifier::opaque]
    pub open spec fn tables_ok(&self) -> bool {
        &&& table_ok(self.tt)
        &&& cache_ok(self.eval_cache)
        &&& self.killer_moves@.len() == MAX_DEPTH
        &&& within(self.history@, 1296, 0, 10_000)
        &&& within(self.cont_history@, 1296, -32_000, 32_000)
        &&& within(self.correction_history@, 16384, -8192, 8192)
        &&& self.prev_move matches Some(m) ==> m.to_sq() < 36
        &&& self.acc_stack.wf()
        &&& self.nodes_since_check < 1024
    }

    pub open spec fn wf(&self) -> bool {
        self.settings_ok() && self.tables_ok()
    }
}

} // verus!
