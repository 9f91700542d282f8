//! Symmetric phases in two bits per position.
//!
//! In a phase with equally many barrels left on both sides every position with
//! black to move is the colour mirror of one with white to move, so only the
//! latter are stored, as win, loss, undecided or invalid.
use vstd::prelude::*;
use crate::bitboard::BitBoard;
use crate::bits::on;
use crate::board::Player;
use crate::configs::{
    config_ok, law_rank_injective, lemma_offset_monotone, lemma_offsets, lemma_rank_bound, offset_of, rank_of,
    ConfigSpace,
};
use crate::mirror::{color_mirror, mirror_state};
use crate::phase::{
    bool_number, compose, core_of, has_parts, in_phase, lemma_in_phase, lemma_pail_number, lemma_pail_of_number,
    pail_number, v_black_win, v_white_win, Phase, PAIL_STATES, V_DRAW,
};
use crate::rules::{hash_of, initial_state};
use crate::squares::{bit, on_board};

verus! {

/// Not decided; a draw once solving has finished.
pub const P_UNKNOWN: u8 = 0;

pub const P_WHITE: u8 = 1;

pub const P_BLACK: u8 = 2;

pub const P_INVALID: u8 = 3;

/// The two bits at place `k` of a byte.
pub open spec fn crumb(b: u8, k: int) -> u8 {
    (b >> ((2 * k) as u8)) & 3
}

proof fn lemma_crumb_set(b: u8, s: u8, v: u8)
    by (bit_vector)
    requires
        v < 4,
        s == 0 || s == 2 || s == 4 || s == 6,
    ensures
        ((((b & !(3u8 << s)) | (v << s)) >> s) & 3u8) == v,
        s != 0 ==> ((((b & !(3u8 << s)) | (v << s)) >> 0u8) & 3u8) == (b >> 0u8) & 3u8,
        s != 2 ==> ((((b & !(3u8 << s)) | (v << s)) >> 2u8) & 3u8) == (b >> 2u8) & 3u8,
        s != 4 ==> ((((b & !(3u8 << s)) | (v << s)) >> 4u8) & 3u8) == (b >> 4u8) & 3u8,
        s != 6 ==> ((((b & !(3u8 << s)) | (v << s)) >> 6u8) & 3u8) == (b >> 6u8) & 3u8,
{
}

proof fn lemma_crumb_bound(b: u8, s: u8)
    by (bit_vector)
    ensures
        (b >> s) & 3u8 < 4,
        (0u8 >> s) & 3u8 == 0,
{
}

/// The entry with an index.
pub open spec fn entry(data: Seq<u8>, i: int) -> u8 {
    crumb(data[i / 4], i % 4)
}

/// The number of indices of a packed phase.
pub open spec fn packed_states(r: nat) -> nat {
    offset_of(r + 1) * offset_of(r + 1) * 37 * 37 * 2
}

/// The index of a board with white to move, field by field.
pub open spec fn pack2_index(bcount: nat, wi: nat, bi: nat, wp: int, bp: int, aw: int) -> int {
    (((wi * bcount + bi) * 37 + wp) * 37 + bp) * 2 + aw
}

pub open spec fn packed_index_of(r: nat, bb: BitBoard) -> int {
    pack2_index(
        offset_of(r + 1),
        rank_of(Player::White, bb.white_barrels),
        rank_of(Player::Black, bb.black_barrels),
        pail_number(bb.white_pail),
        pail_number(bb.black_pail),
        bool_number(bb.awaiting_barrel),
    )
}

proof fn lemma_pack2_bound(count: nat, wi: nat, bi: nat, wp: int, bp: int, aw: int)
    requires
        wi < count,
        bi < count,
        0 <= wp < 37,
        0 <= bp < 37,
        0 <= aw < 2,
    ensures
        0 <= pack2_index(count, wi, bi, wp, bp, aw) < count * count * 37 * 37 * 2,
        0 <= wi * count + bi < count * count,
        0 <= wi * count <= wi * count + bi,
{
    assert(0 <= wi * count && wi * count + bi < count * count) by (nonlinear_arith)
        requires
            wi + 1 <= count,
            bi < count,
    ;
}

proof fn lemma_unpack2(count: nat, wi: nat, bi: nat, wp: int, bp: int, aw: int)
    requires
        bi < count,
        0 <= wp < 37,
        0 <= bp < 37,
        0 <= aw < 2,
    ensures
        ({
            let idx = pack2_index(count, wi, bi, wp, bp, aw);
            &&& idx >= 0
            &&& idx % 2 == aw
            &&& (idx / 2) % 37 == bp
            &&& (idx / 74) % 37 == wp
            &&& idx / 2738 == wi * count + bi
            &&& (wi * count + bi) / count == wi
            &&& (wi * count + bi) % count == bi
        }),
{
    let cfg = wi * count + bi;
    assert(cfg >= 0) by (nonlinear_arith)
        requires
            cfg == wi * count + bi,
    ;
    vstd::arithmetic::div_mod::lemma_fundamental_div_mod_converse(cfg as int, count as int, wi as int, bi as int);
}

proof fn lemma_split2(count: nat, idx: int)
    requires
        count > 0,
        0 <= idx < count * count * 37 * 37 * 2,
    ensures
        ({
            let cfg = idx / 2738;
            let wi = cfg / count as int;
            let bi = cfg % count as int;
            &&& 0 <= wi < count
            &&& 0 <= bi < count
            &&& 0 <= cfg < count * count
            &&& pack2_index(count, wi as nat, bi as nat, (idx / 74) % 37, (idx / 2) % 37, idx % 2) == idx
        }),
{
    let cfg = idx / 2738;
    let b = count as int;
    let total = b * b;
    assert(count * count == total);
    assert(cfg < total);
    vstd::arithmetic::div_mod::lemma_fundamental_div_mod(cfg, b);
    vstd::arithmetic::div_mod::lemma_mod_bound(cfg, b);
    vstd::arithmetic::div_mod::lemma_div_pos_is_pos(cfg, b);
    let q = cfg / b;
    assert(q < b) by (nonlinear_arith)
        requires
            cfg < b * b,
            cfg >= b * q,
            b > 0,
    ;
    assert(b * q == q * b) by (nonlinear_arith);
}

pub proof fn lemma_packed_digits(r: nat, a: BitBoard)
    requires
        a.proper(),
        in_phase(r, r, a),
    ensures
        ({
            let idx = packed_index_of(r, a);
            let count = offset_of(r + 1) as int;
            &&& 0 <= idx < packed_states(r)
            &&& idx % 2 == bool_number(a.awaiting_barrel)
            &&& (idx / 2) % 37 == pail_number(a.black_pail)
            &&& (idx / 74) % 37 == pail_number(a.white_pail)
            &&& (idx / 2738) / count == rank_of(Player::White, a.white_barrels)
            &&& (idx / 2738) % count == rank_of(Player::Black, a.black_barrels)
        }),
{
    lemma_in_phase(r, r, a);
    lemma_rank_bound(Player::White, r, a.white_barrels);
    lemma_rank_bound(Player::Black, r, a.black_barrels);
    lemma_pail_number(a.white_pail);
    lemma_pail_number(a.black_pail);
    let wi = rank_of(Player::White, a.white_barrels);
    let bi = rank_of(Player::Black, a.black_barrels);
    let aw = bool_number(a.awaiting_barrel);
    lemma_unpack2(offset_of(r + 1), wi, bi, pail_number(a.white_pail), pail_number(a.black_pail), aw);
    lemma_pack2_bound(offset_of(r + 1), wi, bi, pail_number(a.white_pail), pail_number(a.black_pail), aw);
}

/// A board as the packed phase sees it: with white to move as it is, with
/// black to move through the colour mirror.
pub open spec fn is_mirror_of(m: BitBoard, bb: BitBoard) -> bool {
    m.inv() && m@ == core_of(mirror_state(bb@)) && m.hash == hash_of(initial_state())
}

/// The colour mirror of a board.
pub open spec fn mirrored(bb: BitBoard) -> BitBoard {
    choose|m: BitBoard| is_mirror_of(m, bb)
}

/// A board has one colour mirror.
pub proof fn lemma_mirrored(m: BitBoard, bb: BitBoard)
    requires
        is_mirror_of(m, bb),
    ensures
        mirrored(bb) == m,
{
    crate::convert::law_bitboard_is_its_view(mirrored(bb), m);
}

/// A symmetric phase with `r` barrels left on each side.
pub struct PackedPhase {
    pub r: usize,
    pub wcfg: ConfigSpace,
    pub bcfg: ConfigSpace,
    /// Four entries per byte, the lowest bits first.
    pub data: Vec<u8>,
    pub n_states: usize,
}

impl PackedPhase {
    pub open spec fn wf(&self) -> bool {
        &&& self.r <= 4
        &&& self.wcfg.wf()
        &&& self.bcfg.wf()
        &&& self.wcfg.player == Player::White
        &&& self.bcfg.player == Player::Black
        &&& self.wcfg.rem == self.r
        &&& self.bcfg.rem == self.r
        &&& self.n_states == packed_states(self.r as nat)
        &&& self.data@.len() == (self.n_states + 3) / 4
    }

    /// The number of indices, if they can be counted on this machine.
    pub fn size(r: usize) -> (n: Option<usize>)
        requires
            r <= 4,
        ensures
            n is Some <==> packed_states(r as nat) <= usize::MAX - 3,
            n matches Some(k) ==> k == packed_states(r as nat),
    {
        let c: u64 = ConfigSpace::new(Player::White, r).count;
        proof {
            lemma_offsets();
            lemma_offset_monotone((r + 1) as nat, 5);
            assert(0 <= c * c <= 31931 * 31931) by (nonlinear_arith)
                requires
                    0 <= c <= 31931,
            ;
        }
        let n: u64 = c * c * 37 * 37 * 2;
        if n <= (usize::MAX - 3) as u64 {
            Some(n as usize)
        } else {
            None
        }
    }

    /// A phase with every entry undecided.
    pub fn new(r: usize) -> (p: Self)
        requires
            r <= 4,
            packed_states(r as nat) <= usize::MAX - 3,
        ensures
            p.wf(),
            p.r == r,
            forall|i: int| 0 <= i < p.n_states ==> #[trigger] entry(p.data@, i) == P_UNKNOWN,
    {
        let wcfg = ConfigSpace::new(Player::White, r);
        let bcfg = ConfigSpace::new(Player::Black, r);
        let n: usize = PackedPhase::size(r).unwrap();
        let data: Vec<u8> = vec![0u8; (n + 3) / 4];
        proof {
            assert forall|i: int| 0 <= i < n implies #[trigger] entry(data@, i) == P_UNKNOWN by {
                lemma_crumb_bound(0, (2 * (i % 4)) as u8);
                assert(data@[i / 4] == 0);
            }
        }
        PackedPhase { r, wcfg, bcfg, data, n_states: n }
    }

    /// A phase with given bytes; none if their number does not fit.
    pub fn from_bytes(r: usize, data: Vec<u8>) -> (p: Option<Self>)
        requires
            r <= 4,
        ensures
            p is Some <==> packed_states(r as nat) <= usize::MAX - 3 && data@.len() == (packed_states(r as nat) + 3) / 4,
            p matches Some(q) ==> q.wf() && q.r == r && q.data == data,
    {
        match PackedPhase::size(r) {
            Some(n) => {
                if data.len() != (n + 3) / 4 {
                    return None;
                }
                let wcfg = ConfigSpace::new(Player::White, r);
                let bcfg = ConfigSpace::new(Player::Black, r);
                Some(PackedPhase { r, wcfg, bcfg, data, n_states: n })
            },
            None => None,
        }
    }

    pub fn num_states(&self) -> (n: usize)
        ensures
            n == self.n_states,
    {
        self.n_states
    }

    /// The entry with an index.
    pub fn get(&self, idx: usize) -> (v: u8)
        requires
            self.wf(),
            idx < self.n_states,
        ensures
            v == entry(self.data@, idx as int),
            v < 4,
    {
        proof {
            lemma_crumb_bound(self.data@[idx as int / 4], (2 * (idx % 4)) as u8);
        }
        (self.data[idx / 4] >> ((idx % 4) * 2) as u8) & 3
    }

    /// Changes one entry.
    pub fn set(data: &mut Vec<u8>, idx: usize, v: u8)
        requires
            idx / 4 < old(data)@.len(),
            v < 4,
        ensures
            final(data)@.len() == old(data)@.len(),
            forall|i: int|
                0 <= i / 4 < old(data)@.len() ==> #[trigger] entry(final(data)@, i) == (if i == idx {
                    v
                } else {
                    entry(old(data)@, i)
                }),
    {
        let shift: u8 = ((idx % 4) * 2) as u8;
        let b: u8 = data[idx / 4];
        let ghost before = data@;
        let c: u8 = (b & !(3u8 << shift)) | (v << shift);
        data.set(idx / 4, c);
        proof {
            lemma_crumb_set(b, shift, v);
            assert forall|i: int| 0 <= i / 4 < before.len() implies #[trigger] entry(data@, i) == (if i == idx {
                v
            } else {
                entry(before, i)
            }) by {
                if i / 4 == idx / 4 {
                    let k = i % 4;
                    assert(k == 0 || k == 1 || k == 2 || k == 3);
                    assert(i == 4 * (i / 4) + k);
                }
            }
        }
    }

    /// The index of a board with white to move; none if the phase has none.
    pub fn index(&self, bb: &BitBoard) -> (i: Option<usize>)
        requires
            self.wf(),
            bb.inv(),
            bb.white_scored <= 4,
            bb.black_scored <= 4,
        ensures
            i is Some <==> bb.current_player == Player::White && in_phase(self.r as nat, self.r as nat, *bb) && config_ok(
                Player::White,
                self.r as nat,
                bb.white_barrels,
            ) && config_ok(Player::Black, self.r as nat, bb.black_barrels),
            i matches Some(k) ==> k == packed_index_of(self.r as nat, *bb) && k < self.n_states,
            bb.wf() && bb.current_player == Player::White && in_phase(self.r as nat, self.r as nat, *bb) ==> i is Some,
    {
        proof {
            assert forall|s: int| on(bb.white_barrels, s) || on(bb.black_barrels, s) || on(bb.white_pail, s) || on(
                bb.black_pail,
                s,
            ) implies on_board(s) by {
                bb.lemma_square(s);
            }
            if bb.wf() && in_phase(self.r as nat, self.r as nat, *bb) {
                lemma_in_phase(self.r as nat, self.r as nat, *bb);
            }
        }
        if bb.current_player != Player::White {
            return None;
        }
        if (4 - bb.white_scored as usize) != self.r || (4 - bb.black_scored as usize) != self.r {
            return None;
        }
        let wi: u64 = match self.wcfg.rank(bb.white_barrels) {
            Some(i) => i,
            None => {
                return None;
            },
        };
        let bi: u64 = match self.bcfg.rank(bb.black_barrels) {
            Some(i) => i,
            None => {
                return None;
            },
        };
        let aw: usize = if bb.awaiting_barrel { 1 } else { 0 };
        let wp: usize = Phase::pail_index(bb.white_pail);
        let bp: usize = Phase::pail_index(bb.black_pail);
        proof {
            lemma_pack2_bound(offset_of((self.r + 1) as nat), wi as nat, bi as nat, wp as int, bp as int, aw as int);
            lemma_offsets();
            lemma_offset_monotone((self.r + 1) as nat, 5);
            let x = offset_of((self.r + 1) as nat);
            assert(x * x <= 31931 * 31931) by (nonlinear_arith)
                requires
                    x <= 31931,
            ;
        }
        let cfg: u64 = wi * self.bcfg.count + bi;
        Some((((cfg as usize * PAIL_STATES + wp) * PAIL_STATES + bp) * 2) + aw)
    }

    /// The game position with an index, if there is one. Move counter, clock
    /// and hash are those of the start of the game.
    pub fn decode(&self, idx: usize) -> (r: Option<BitBoard>)
        requires
            self.wf(),
            idx < self.n_states,
        ensures
            r is None <==> forall|b: BitBoard|
                b.proper() && in_phase(self.r as nat, self.r as nat, b) && b.current_player == Player::White
                    ==> #[trigger] packed_index_of(self.r as nat, b) != idx,
            r matches Some(b) ==> {
                &&& b.proper()
                &&& in_phase(self.r as nat, self.r as nat, b)
                &&& b.current_player == Player::White
                &&& packed_index_of(self.r as nat, b) == idx
                &&& b.move_count == 0
                &&& b.halfmove_clock == 0
                &&& b.hash == hash_of(initial_state())
            },
    {
        let ghost count = offset_of((self.r + 1) as nat);
        proof {
            lemma_offsets();
            lemma_offset_monotone(1, (self.r + 1) as nat);
            lemma_split2(count, idx as int);
        }
        let aw: usize = idx % 2;
        let bp: usize = (idx / 2) % PAIL_STATES;
        let wp: usize = (idx / (2 * PAIL_STATES)) % PAIL_STATES;
        let cfg: u64 = (idx / (2 * PAIL_STATES * PAIL_STATES)) as u64;
        let wmask: u64 = self.wcfg.unrank(cfg / self.bcfg.count);
        let bmask: u64 = self.bcfg.unrank(cfg % self.bcfg.count);
        let wpail: u64 = if wp == 0 { 0 } else { bit(wp - 1) };
        let bpail: u64 = if bp == 0 { 0 } else { bit(bp - 1) };
        proof {
            lemma_pail_of_number(wpail, wp as int);
            lemma_pail_of_number(bpail, bp as int);
            assert forall|b: BitBoard|
                b.proper() && in_phase(self.r as nat, self.r as nat, b) && b.current_player == Player::White
                    && #[trigger] packed_index_of(self.r as nat, b) == idx implies has_parts(
                b,
                wmask,
                bmask,
                wpail,
                bpail,
                Player::White,
                aw == 1,
            ) by {
                lemma_packed_digits(self.r as nat, b);
                lemma_in_phase(self.r as nat, self.r as nat, b);
                law_rank_injective(Player::White, b.white_barrels, wmask);
                law_rank_injective(Player::Black, b.black_barrels, bmask);
                lemma_pail_number(b.white_pail);
                lemma_pail_number(b.black_pail);
            }
        }
        let r = compose(self.r, self.r, wmask, bmask, wpail, bpail, Player::White, aw == 1);
        proof {
            if let Some(b) = r {
                assert(packed_index_of(self.r as nat, b) == idx);
            }
        }
        r
    }

    /// The phase's answer for a board as a value with distance 0, from white's
    /// point of view.
    pub open spec fn answer(&self, bb: BitBoard) -> Option<u8> {
        let flip = bb.current_player != Player::White;
        let pos = if flip { mirrored(bb) } else { bb };
        let r = self.r as nat;
        if in_phase(r, r, pos) && config_ok(Player::White, r, pos.white_barrels) && config_ok(
            Player::Black,
            r,
            pos.black_barrels,
        ) {
            let v = entry(self.data@, packed_index_of(r, pos));
            if v == P_INVALID {
                None
            } else if v == P_UNKNOWN {
                Some(V_DRAW)
            } else if (v == P_WHITE) != flip {
                Some(v_white_win(0))
            } else {
                Some(v_black_win(0))
            }
        } else {
            None
        }
    }

    /// The value of a board of this phase, whoever is to move.
    pub fn value(&self, bb: &BitBoard) -> (v: Option<u8>)
        requires
            self.wf(),
            bb.inv(),
            bb.white_scored <= 4,
            bb.black_scored <= 4,
        ensures
            v == self.answer(*bb),
    {
        let flip: bool = bb.current_player != Player::White;
        let pos = if flip {
            let m = color_mirror(bb);
            proof {
                lemma_mirrored(m, *bb);
                assert(m.white_scored as int == bb@.black_scored);
                assert(m.black_scored as int == bb@.white_scored);
            }
            m
        } else {
            *bb
        };
        let idx: usize = match self.index(&pos) {
            Some(i) => i,
            None => {
                return None;
            },
        };
        let v: u8 = self.get(idx);
        if v == P_INVALID {
            None
        } else if v == P_UNKNOWN {
            Some(V_DRAW)
        } else if (v == P_WHITE) != flip {
            Some(v_white_win(0))
        } else {
            Some(v_black_win(0))
        }
    }
}

} // verus!
