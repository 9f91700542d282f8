//! Solved endgame phases and their lookup.
//!
//! A phase is a pair of numbers of barrels left to bring home. Scoring cannot
//! be undone, so a phase depends only on phases with fewer barrels.
use vstd::prelude::*;
use crate::bitboard::BitBoard;
use crate::board::Player;
use crate::configs::config_ok;
use crate::mirror::color_mirror;
use crate::packed::{lemma_mirrored, mirrored, PackedPhase};
use crate::phase::{
    in_phase, index_of, is_black_win, is_white_win, v_black_win, v_white_win, win_dist, Phase, V_INVALID, V_UNKNOWN,
};

verus! {

/// What a phase holds for a board: nothing if it has no index for it or no
/// value there.
pub open spec fn phase_answer(p: Phase, bb: BitBoard) -> Option<u8> {
    if in_phase(p.wr as nat, p.br as nat, bb) && config_ok(Player::White, p.wr as nat, bb.white_barrels) && config_ok(
        Player::Black,
        p.br as nat,
        bb.black_barrels,
    ) {
        let v = p.values@[index_of(p.br as nat, bb)];
        if v == V_INVALID || v == V_UNKNOWN {
            None
        } else {
            Some(v)
        }
    } else {
        None
    }
}

/// The value with the sides exchanged.
pub open spec fn negated(v: u8) -> u8 {
    if is_white_win(v) {
        v_black_win(win_dist(v))
    } else if is_black_win(v) {
        v_white_win(win_dist(v))
    } else {
        v
    }
}

/// Exchanging the sides twice gives the value back.
pub proof fn law_negated_involution(v: u8)
    ensures
        negated(negated(v)) == v,
{
}

/// The solved phases, at most one full table per pair and one packed table
/// per symmetric pair.
pub struct Tablebase {
    /// The phase with `wr` and `br` barrels left stands at `wr * 5 + br`.
    pub phases: Vec<Option<Phase>>,
    /// The packed phase with `r` barrels left on each side stands at `r`.
    pub packed: Vec<Option<PackedPhase>>,
}

impl Tablebase {
    pub open spec fn wf(&self) -> bool {
        &&& self.phases@.len() == 25
        &&& self.packed@.len() == 5
        &&& forall|i: int|
            0 <= i < 25 ==> ((#[trigger] self.phases@[i]) matches Some(p) ==> p.wf() && p.wr * 5 + p.br == i)
        &&& forall|i: int| 0 <= i < 5 ==> ((#[trigger] self.packed@[i]) matches Some(p) ==> p.wf() && p.r == i)
    }

    /// The value of a board by the rules of the lookup: finished games first,
    /// then the phase itself, the packed phase, and the mirrored phase.
    pub open spec fn value_of(&self, bb: BitBoard) -> Option<u8> {
        let wr = 4 - bb.white_scored;
        let br = 4 - bb.black_scored;
        if bb.white_scored == 4 {
            Some(v_white_win(0))
        } else if bb.black_scored == 4 {
            Some(v_black_win(0))
        } else if let Some(p) = self.phases@[wr * 5 + br] {
            phase_answer(p, bb)
        } else if wr == br && self.packed@[wr] is Some {
            self.packed@[wr]->0.answer(bb)
        } else if let Some(p) = self.phases@[br * 5 + wr] {
            match phase_answer(p, mirrored(bb)) {
                Some(v) => Some(negated(v)),
                None => None,
            }
        } else {
            None
        }
    }

    pub fn new() -> (r: Self)
        ensures
            r.wf(),
            forall|i: int| 0 <= i < 25 ==> #[trigger] r.phases@[i] is None,
            forall|i: int| 0 <= i < 5 ==> #[trigger] r.packed@[i] is None,
    {
        let mut phases: Vec<Option<Phase>> = Vec::new();
        let mut i: usize = 0;
        while i < 25
            invariant
                i <= 25,
                phases@.len() == i,
                forall|k: int| 0 <= k < i ==> #[trigger] phases@[k] is None,
            decreases 25 - i,
        {
            phases.push(None);
            i = i + 1;
        }
        let mut packed: Vec<Option<PackedPhase>> = Vec::new();
        let mut j: usize = 0;
        while j < 5
            invariant
                j <= 5,
                packed@.len() == j,
                forall|k: int| 0 <= k < j ==> #[trigger] packed@[k] is None,
            decreases 5 - j,
        {
            packed.push(None);
            j = j + 1;
        }
        Tablebase { phases, packed }
    }

    /// Stores a packed phase in its place.
    pub fn insert_packed(&mut self, p: PackedPhase)
        requires
            old(self).wf(),
            p.wf(),
        ensures
            final(self).wf(),
            final(self).phases == old(self).phases,
            final(self).packed@ == old(self).packed@.update(p.r as int, Some(p)),
    {
        let r: usize = p.r;
        self.packed.set(r, Some(p));
    }

    /// Stores a phase in its place.
    pub fn insert(&mut self, phase: Phase)
        requires
            old(self).wf(),
            phase.wf(),
        ensures
            final(self).wf(),
            final(self).packed == old(self).packed,
            final(self).phases@ == old(self).phases@.update(phase.wr * 5 + phase.br, Some(phase)),
    {
        let slot: usize = phase.wr * 5 + phase.br;
        self.phases.set(slot, Some(phase));
    }

    /// The phase stored for a pair, if any.
    pub fn get(&self, wr: usize, br: usize) -> (r: Option<&Phase>)
        requires
            self.wf(),
            wr <= 4,
            br <= 4,
        ensures
            match (r, self.phases@[wr * 5 + br]) {
                (Some(a), Some(b)) => *a == b,
                (None, None) => true,
                _ => false,
            },
            r matches Some(p) ==> p.wf() && p.wr == wr && p.br == br,
    {
        match &self.phases[wr * 5 + br] {
            Some(p) => Some(p),
            None => None,
        }
    }

    /// The pairs with a stored phase among the first `n` slots, in ascending
    /// order; a pair with both a full and a packed table is listed twice.
    pub open spec fn loaded_below(&self, n: nat) -> Seq<(usize, usize)>
        decreases n,
    {
        if n == 0 {
            Seq::empty()
        } else {
            let k = n - 1;
            let pair = ((k / 5) as usize, (k % 5) as usize);
            let before = self.loaded_below(k as nat);
            let full = if self.phases@[k] is Some {
                before.push(pair)
            } else {
                before
            };
            if k / 5 == k % 5 && self.packed@[k / 5] is Some {
                full.push(pair)
            } else {
                full
            }
        }
    }

    /// The pairs with a stored phase, in ascending order.
    pub fn loaded_phases(&self) -> (r: Vec<(usize, usize)>)
        requires
            self.wf(),
        ensures
            r@ == self.loaded_below(25),
    {
        let mut v: Vec<(usize, usize)> = Vec::new();
        let mut k: usize = 0;
        while k < 25
            invariant
                k <= 25,
                self.wf(),
                v@ == self.loaded_below(k as nat),
            decreases 25 - k,
        {
            let wr: usize = k / 5;
            let br: usize = k % 5;
            if self.phases[k].is_some() {
                v.push((wr, br));
            }
            if wr == br && self.packed[wr].is_some() {
                v.push((wr, br));
            }
            k = k + 1;
        }
        v
    }

    fn phase_value(p: &Phase, bb: &BitBoard) -> (r: Option<u8>)
        requires
            p.wf(),
            bb.inv(),
            bb.white_scored <= 4,
            bb.black_scored <= 4,
        ensures
            r == phase_answer(*p, *bb),
    {
        let idx: usize = match p.index(bb) {
            Some(i) => i,
            None => {
                return None;
            },
        };
        let v: u8 = p.values[idx];
        if v == V_INVALID || v == V_UNKNOWN {
            None
        } else {
            Some(v)
        }
    }

    /// The value of a position from white's point of view, if its phase or the
    /// mirrored phase is solved.
    pub fn value(&self, bb: &BitBoard) -> (r: Option<u8>)
        requires
            self.wf(),
            bb.inv(),
            bb.white_scored <= 4,
            bb.black_scored <= 4,
        ensures
            r == self.value_of(*bb),
    {
        if bb.white_scored == 4 {
            return Some(v_white_win(0));
        }
        if bb.black_scored == 4 {
            return Some(v_black_win(0));
        }
        let wr: usize = 4 - bb.white_scored as usize;
        let br: usize = 4 - bb.black_scored as usize;
        if let Some(phase) = self.get(wr, br) {
            return Self::phase_value(phase, bb);
        }
        if wr == br {
            if let Some(p) = &self.packed[wr] {
                return p.value(bb);
            }
        }
        let mirror_phase = match self.get(br, wr) {
            Some(p) => p,
            None => {
                return None;
            },
        };
        let m = color_mirror(bb);
        proof {
            lemma_mirrored(m, *bb);
            assert(m.white_scored as int == bb@.black_scored);
            assert(m.black_scored as int == bb@.white_scored);
        }
        match Self::phase_value(mirror_phase, &m) {
            Some(v) => {
                if is_white_win(v) {
                    Some(v_black_win(win_dist(v)))
                } else if is_black_win(v) {
                    Some(v_white_win(win_dist(v)))
                } else {
                    Some(v)
                }
            },
            None => None,
        }
    }
}

} // verus!
