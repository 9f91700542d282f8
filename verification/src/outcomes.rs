//! Counting the outcomes in solved tables.
use vstd::prelude::*;
use crate::packed::{entry, PackedPhase, P_BLACK, P_UNKNOWN, P_WHITE};
use crate::phase::{is_black_win, is_white_win, Phase, V_DRAW};

verus! {

/// How many states of a table end how: states in all, white wins, black wins
/// and draws. The rest cannot arise.
#[derive(Clone, Copy, PartialEq, Eq, Debug)]
pub struct Outcomes {
    pub states: usize,
    pub white_wins: usize,
    pub black_wins: usize,
    pub draws: usize,
}

/// How many of the first `n` indices have a property.
pub open spec fn count_of(has: spec_fn(int) -> bool, n: int) -> int
    decreases n,
{
    if n <= 0 {
        0
    } else {
        count_of(has, n - 1) + if has(n - 1) {
            1int
        } else {
            0
        }
    }
}

impl Phase {
    /// Counts the outcomes.
    pub fn outcomes(&self) -> (r: Outcomes)
        requires
            self.wf(),
        ensures
            r.states == self.values@.len(),
            r.white_wins == count_of(|i: int| is_white_win(self.values@[i]), self.values@.len() as int),
            r.black_wins == count_of(|i: int| is_black_win(self.values@[i]), self.values@.len() as int),
            r.draws == count_of(|i: int| self.values@[i] == V_DRAW, self.values@.len() as int),
    {
        let ghost w = |i: int| is_white_win(self.values@[i]);
        let ghost b = |i: int| is_black_win(self.values@[i]);
        let ghost d = |i: int| self.values@[i] == V_DRAW;
        let n: usize = self.values.len();
        let mut r = Outcomes { states: n, white_wins: 0, black_wins: 0, draws: 0 };
        let mut i: usize = 0;
        while i < n
            invariant
                i <= n,
                n == self.values@.len(),
                r.states == n,
                r.white_wins == count_of(w, i as int) <= i,
                r.black_wins == count_of(b, i as int) <= i,
                r.draws == count_of(d, i as int) <= i,
                w == (|i: int| is_white_win(self.values@[i])),
                b == (|i: int| is_black_win(self.values@[i])),
                d == (|i: int| self.values@[i] == V_DRAW),
            decreases n - i,
        {
            let v: u8 = self.values[i];
            if is_white_win(v) {
                r.white_wins = r.white_wins + 1;
            }
            if is_black_win(v) {
                r.black_wins = r.black_wins + 1;
            }
            if v == V_DRAW {
                r.draws = r.draws + 1;
            }
            i = i + 1;
        }
        r
    }
}

impl PackedPhase {
    /// Counts the outcomes; what no pass decided is a draw.
    pub fn outcomes(&self) -> (r: Outcomes)
        requires
            self.wf(),
        ensures
            r.states == self.n_states,
            r.white_wins == count_of(|i: int| entry(self.data@, i) == P_WHITE, self.n_states as int),
            r.black_wins == count_of(|i: int| entry(self.data@, i) == P_BLACK, self.n_states as int),
            r.draws == count_of(|i: int| entry(self.data@, i) == P_UNKNOWN, self.n_states as int),
    {
        let ghost w = |i: int| entry(self.data@, i) == P_WHITE;
        let ghost b = |i: int| entry(self.data@, i) == P_BLACK;
        let ghost d = |i: int| entry(self.data@, i) == P_UNKNOWN;
        let n: usize = self.n_states;
        let mut r = Outcomes { states: n, white_wins: 0, black_wins: 0, draws: 0 };
        let mut i: usize = 0;
        while i < n
            invariant
                i <= n,
                self.wf(),
                n == self.n_states,
                r.states == n,
                r.white_wins == count_of(w, i as int) <= i,
                r.black_wins == count_of(b, i as int) <= i,
                r.draws == count_of(d, i as int) <= i,
                w == (|i: int| entry(self.data@, i) == P_WHITE),
                b == (|i: int| entry(self.data@, i) == P_BLACK),
                d == (|i: int| entry(self.data@, i) == P_UNKNOWN),
            decreases n - i,
        {
            let v: u8 = self.get(i);
            if v == P_WHITE {
                r.white_wins = r.white_wins + 1;
            } else if v == P_BLACK {
                r.black_wins = r.black_wins + 1;
            } else if v == P_UNKNOWN {
                r.draws = r.draws + 1;
            }
            i = i + 1;
        }
        r
    }
}

} // verus!
