//! Endgame phases: the positions with a given number of barrels left on each
//! side, numbered consecutively, with one byte of value per position.
use vstd::prelude::*;
use vstd::std_specs::bits::u64_trailing_zeros;
use crate::bitboard::BitBoard;
use crate::bits::{count_below, count_ones, group_has, lemma_lowest, lemma_mask_ext, lowest, on, popcount};
use crate::board::Player;
use crate::configs::{
    all_allowed, allowed, config_ok, law_rank_injective, lemma_allowed, lemma_offset_monotone, lemma_offsets,
    lemma_rank_bound, offset_of, rank_of, ConfigSpace,
};
use crate::play::at_most_one;
use crate::rules::{barrels_on, goal_row_of, hash_of, initial_state, GameState};
use crate::squares::{bit, lemma_masks, on_board, row_of, ALL_SQUARES};

verus! {

/// Not determined yet.
pub const V_UNKNOWN: u8 = 0;

pub const V_DRAW: u8 = 128;

/// No position has this index.
pub const V_INVALID: u8 = 255;

/// The longest distance that is stored.
pub const MAX_DIST: u8 = 120;

/// Thirty-six squares and "not placed".
pub const PAIL_STATES: usize = 37;

pub open spec fn capped(d: u8) -> u8 {
    if d < MAX_DIST {
        d
    } else {
        MAX_DIST
    }
}

pub open spec fn spec_v_white_win(d: u8) -> u8 {
    (capped(d) + 1) as u8
}

pub open spec fn spec_v_black_win(d: u8) -> u8 {
    (129 + capped(d)) as u8
}

pub open spec fn spec_is_white_win(v: u8) -> bool {
    1 <= v <= 121
}

pub open spec fn spec_is_black_win(v: u8) -> bool {
    129 <= v <= 249
}

pub open spec fn spec_win_dist(v: u8) -> u8 {
    if spec_is_white_win(v) {
        (v - 1) as u8
    } else {
        (v - 129) as u8
    }
}

/// The value "white wins in `d`", distances beyond the cap counting as the cap.
#[verifier::when_used_as_spec(spec_v_white_win)]
pub fn v_white_win(d: u8) -> (r: u8)
    ensures
        r == spec_v_white_win(d),
{
    (if d < MAX_DIST { d } else { MAX_DIST }) + 1
}

/// The value "black wins in `d`", distances beyond the cap counting as the cap.
#[verifier::when_used_as_spec(spec_v_black_win)]
pub fn v_black_win(d: u8) -> (r: u8)
    ensures
        r == spec_v_black_win(d),
{
    129 + (if d < MAX_DIST { d } else { MAX_DIST })
}

#[verifier::when_used_as_spec(spec_is_white_win)]
pub fn is_white_win(v: u8) -> (r: bool)
    ensures
        r == spec_is_white_win(v),
{
    1 <= v && v <= 121
}

#[verifier::when_used_as_spec(spec_is_black_win)]
pub fn is_black_win(v: u8) -> (r: bool)
    ensures
        r == spec_is_black_win(v),
{
    129 <= v && v <= 249
}

/// The distance stored in a decided value.
#[verifier::when_used_as_spec(spec_win_dist)]
pub fn win_dist(v: u8) -> (r: u8)
    requires
        is_white_win(v) || v >= 129,
    ensures
        r == spec_win_dist(v),
{
    if is_white_win(v) {
        v - 1
    } else {
        v - 129
    }
}

/// A decided value gives back its winner and its distance up to the cap, and
/// no value belongs to both sides, to a draw or to an undetermined position.
pub proof fn law_value_encoding(d: u8)
    ensures
        is_white_win(v_white_win(d)) && !is_black_win(v_white_win(d)),
        is_black_win(v_black_win(d)) && !is_white_win(v_black_win(d)),
        win_dist(v_white_win(d)) == capped(d),
        win_dist(v_black_win(d)) == capped(d),
        !is_white_win(V_DRAW) && !is_black_win(V_DRAW),
        !is_white_win(V_UNKNOWN) && !is_black_win(V_UNKNOWN),
        !is_white_win(V_INVALID) && !is_black_win(V_INVALID),
{
}

/// The position without its history: move counter and clock at zero.
pub open spec fn core_of(s: GameState) -> GameState {
    GameState { move_count: 0, clock: 0, ..s }
}

/// The board without its history.
pub open spec fn plain(b: BitBoard) -> BitBoard {
    BitBoard { move_count: 0, halfmove_clock: 0, hash: hash_of(initial_state()), ..b }
}

/// The number of a pail mask: 0 for none, else its square plus one.
pub open spec fn pail_number(m: u64) -> int {
    if m == 0 {
        0
    } else {
        u64_trailing_zeros(m) + 1
    }
}

pub proof fn lemma_pail_number(m: u64)
    requires
        at_most_one(m),
    ensures
        0 <= pail_number(m) <= 36,
        m != 0 ==> m == 1u64 << ((pail_number(m) - 1) as u64),
        forall|s: int| #[trigger] on(m, s) == (m != 0 && s == pail_number(m) - 1),
{
    broadcast use group_has;

    if m != 0 {
        let k = choose|k: u64| k < 36 && m == #[trigger] (1u64 << k);
        lemma_lowest(m);
        assert(on(m, u64_trailing_zeros(m) as int));
        assert(u64_trailing_zeros(m) == k);
    }
}

/// The number of barrels on the board is the number of bits.
pub proof fn lemma_barrels_popcount(bb: BitBoard, p: Player)
    requires
        bb.inv(),
    ensures
        barrels_on(bb@.cells, p, 36) == popcount(bb.barrels_of(p)),
{
    lemma_barrels_below(bb, p, 36);
    assert forall|s: int| 36 <= s < 64 implies !on(bb.barrels_of(p), s) by {
        bb.lemma_square(s);
    }
    lemma_count_tail(bb.barrels_of(p), 36, 64);
}

proof fn lemma_barrels_below(bb: BitBoard, p: Player, n: nat)
    requires
        bb.inv(),
        n <= 36,
    ensures
        barrels_on(bb@.cells, p, n) == count_below(bb.barrels_of(p), n),
    decreases n,
{
    if n > 0 {
        lemma_barrels_below(bb, p, (n - 1) as nat);
        bb.lemma_square(n - 1);
        assert(bb@.cells[n - 1] == bb.cell_at(n - 1));
    }
}

/// Squares without members do not count.
pub proof fn lemma_count_tail(m: u64, a: nat, b: nat)
    requires
        a <= b,
        forall|s: int| a <= s < b ==> !on(m, s),
    ensures
        count_below(m, b) == count_below(m, a),
    decreases b - a,
{
    if a < b {
        lemma_count_tail(m, a, (b - 1) as nat);
    }
}

/// The number of indices of a phase.
pub open spec fn states_of(wr: nat, br: nat) -> nat {
    offset_of(wr + 1) * offset_of(br + 1) * 37 * 37 * 4
}

/// The index of a position, field by field.
pub open spec fn pack_index(bcount: nat, wi: nat, bi: nat, wp: int, bp: int, stm: int, aw: int) -> int {
    ((((wi * bcount + bi) * 37 + wp) * 37 + bp) * 2 + stm) * 2 + aw
}

pub open spec fn side_number(p: Player) -> int {
    match p {
        Player::White => 0,
        Player::Black => 1,
    }
}

pub open spec fn bool_number(b: bool) -> int {
    if b {
        1
    } else {
        0
    }
}

/// The index of a board in the phase with `br` black barrels left.
pub open spec fn index_of(br: nat, bb: BitBoard) -> int {
    pack_index(
        offset_of(br + 1),
        rank_of(Player::White, bb.white_barrels),
        rank_of(Player::Black, bb.black_barrels),
        pail_number(bb.white_pail),
        pail_number(bb.black_pail),
        side_number(bb.current_player),
        bool_number(bb.awaiting_barrel),
    )
}

/// The board has `wr` white and `br` black barrels left to bring home.
pub open spec fn in_phase(wr: nat, br: nat, bb: BitBoard) -> bool {
    4 - bb.white_scored == wr && 4 - bb.black_scored == br
}

/// A game position has barrel sets the phase can number.
pub proof fn lemma_in_phase(wr: nat, br: nat, bb: BitBoard)
    requires
        bb.wf(),
        in_phase(wr, br, bb),
    ensures
        config_ok(Player::White, wr, bb.white_barrels),
        config_ok(Player::Black, br, bb.black_barrels),
        popcount(bb.white_barrels) + bb.white_barrels_off_board == wr,
        popcount(bb.black_barrels) + bb.black_barrels_off_board == br,
{
    lemma_barrels_popcount(bb, Player::White);
    lemma_barrels_popcount(bb, Player::Black);
    assert forall|s: int| #[trigger] on(bb.white_barrels, s) implies allowed(Player::White, s) by {
        bb.lemma_square(s);
        lemma_allowed(Player::White, s);
    }
    assert forall|s: int| #[trigger] on(bb.black_barrels, s) implies allowed(Player::Black, s) by {
        bb.lemma_square(s);
        lemma_allowed(Player::Black, s);
    }
}

/// The fields of an index are its digits.
proof fn lemma_unpack(bcount: nat, wi: nat, bi: nat, wp: int, bp: int, stm: int, aw: int)
    requires
        bi < bcount,
        0 <= wp < 37,
        0 <= bp < 37,
        0 <= stm < 2,
        0 <= aw < 2,
    ensures
        ({
            let idx = pack_index(bcount, wi, bi, wp, bp, stm, aw);
            &&& idx >= 0
            &&& idx % 2 == aw
            &&& (idx / 2) % 2 == stm
            &&& (idx / 4) % 37 == bp
            &&& (idx / 148) % 37 == wp
            &&& idx / 5476 == wi * bcount + bi
            &&& (wi * bcount + bi) / bcount == wi
            &&& (wi * bcount + bi) % bcount == bi
        }),
{
    let cfg = wi * bcount + bi;
    assert(cfg >= 0) by (nonlinear_arith)
        requires
            cfg == wi * bcount + bi,
    ;
    vstd::arithmetic::div_mod::lemma_fundamental_div_mod_converse(cfg as int, bcount as int, wi as int, bi as int);
}

proof fn lemma_pack_bound(wcount: nat, bcount: nat, wi: nat, bi: nat, wp: int, bp: int, stm: int, aw: int)
    requires
        wi < wcount,
        bi < bcount,
        0 <= wp < 37,
        0 <= bp < 37,
        0 <= stm < 2,
        0 <= aw < 2,
    ensures
        0 <= pack_index(bcount, wi, bi, wp, bp, stm, aw) < wcount * bcount * 37 * 37 * 4,
        0 <= wi * bcount + bi < wcount * bcount,
        0 <= wi * bcount <= wi * bcount + bi,
{
    assert(0 <= wi * bcount && wi * bcount + bi < wcount * bcount) by (nonlinear_arith)
        requires
            wi + 1 <= wcount,
            bi < bcount,
    ;
}

/// Two game positions of a phase with one index are the same position, history
/// aside.
pub proof fn law_index_injective(wr: nat, br: nat, a: BitBoard, b: BitBoard)
    requires
        a.proper(),
        b.proper(),
        in_phase(wr, br, a),
        in_phase(wr, br, b),
        index_of(br, a) == index_of(br, b),
    ensures
        core_of(a@) == core_of(b@),
        a.white_barrels == b.white_barrels,
        a.black_barrels == b.black_barrels,
        a.white_pail == b.white_pail,
        a.black_pail == b.black_pail,
{
    lemma_in_phase(wr, br, a);
    lemma_in_phase(wr, br, b);
    lemma_index_digits(wr, br, a);
    lemma_index_digits(wr, br, b);
    lemma_board_from_digits(a, b);
}

pub proof fn lemma_index_digits(wr: nat, br: nat, a: BitBoard)
    requires
        a.proper(),
        in_phase(wr, br, a),
    ensures
        ({
            let idx = index_of(br, a);
            let bcount = offset_of(br + 1) as int;
            &&& 0 <= idx < states_of(wr, br)
            &&& idx % 2 == bool_number(a.awaiting_barrel)
            &&& (idx / 2) % 2 == side_number(a.current_player)
            &&& (idx / 4) % 37 == pail_number(a.black_pail)
            &&& (idx / 148) % 37 == pail_number(a.white_pail)
            &&& (idx / 5476) / bcount == rank_of(Player::White, a.white_barrels)
            &&& (idx / 5476) % bcount == rank_of(Player::Black, a.black_barrels)
        }),
{
    lemma_in_phase(wr, br, a);
    lemma_rank_bound(Player::White, wr, a.white_barrels);
    lemma_rank_bound(Player::Black, br, a.black_barrels);
    lemma_pail_number(a.white_pail);
    lemma_pail_number(a.black_pail);
    let wi = rank_of(Player::White, a.white_barrels);
    let bi = rank_of(Player::Black, a.black_barrels);
    let stm = side_number(a.current_player);
    let aw = bool_number(a.awaiting_barrel);
    lemma_unpack(offset_of(br + 1), wi, bi, pail_number(a.white_pail), pail_number(a.black_pail), stm, aw);
    lemma_pack_bound(
        offset_of(wr + 1),
        offset_of(br + 1),
        wi,
        bi,
        pail_number(a.white_pail),
        pail_number(a.black_pail),
        stm,
        aw,
    );
}

/// Game positions with the same sets, pails, turn and scores are the same.
pub proof fn lemma_board_from_digits(a: BitBoard, b: BitBoard)
    requires
        a.proper(),
        b.proper(),
        a.white_scored == b.white_scored,
        a.black_scored == b.black_scored,
        a.white_scored <= 4,
        a.black_scored <= 4,
        rank_of(Player::White, a.white_barrels) == rank_of(Player::White, b.white_barrels),
        rank_of(Player::Black, a.black_barrels) == rank_of(Player::Black, b.black_barrels),
        pail_number(a.white_pail) == pail_number(b.white_pail),
        pail_number(a.black_pail) == pail_number(b.black_pail),
        side_number(a.current_player) == side_number(b.current_player),
        bool_number(a.awaiting_barrel) == bool_number(b.awaiting_barrel),
    ensures
        core_of(a@) == core_of(b@),
        a.white_barrels == b.white_barrels,
        a.black_barrels == b.black_barrels,
        a.white_pail == b.white_pail,
        a.black_pail == b.black_pail,
{
    let wr = (4 - a.white_scored) as nat;
    let br = (4 - a.black_scored) as nat;
    lemma_in_phase(wr, br, a);
    lemma_in_phase(wr, br, b);
    law_rank_injective(Player::White, a.white_barrels, b.white_barrels);
    law_rank_injective(Player::Black, a.black_barrels, b.black_barrels);
    lemma_pail_number(a.white_pail);
    lemma_pail_number(a.black_pail);
    lemma_pail_number(b.white_pail);
    lemma_pail_number(b.black_pail);
    assert(a@.cells =~= b@.cells) by {
        assert forall|s: int| 0 <= s < 36 implies a.cell_at(s) == b.cell_at(s) by {}
    }
}

/// One solved or half solved phase.
pub struct Phase {
    /// White barrels left to bring home.
    pub wr: usize,
    /// Black barrels left to bring home.
    pub br: usize,
    pub wcfg: ConfigSpace,
    pub bcfg: ConfigSpace,
    /// One byte per index, from white's point of view.
    pub values: Vec<u8>,
}

impl Phase {
    pub open spec fn wf(&self) -> bool {
        &&& self.wr <= 4
        &&& self.br <= 4
        &&& self.wcfg.wf()
        &&& self.bcfg.wf()
        &&& self.wcfg.player == Player::White
        &&& self.bcfg.player == Player::Black
        &&& self.wcfg.rem == self.wr
        &&& self.bcfg.rem == self.br
        &&& self.values@.len() == states_of(self.wr as nat, self.br as nat)
    }

    /// The number of indices of a phase, if it fits into memory.
    pub fn size(wr: usize, br: usize) -> (r: Option<usize>)
        requires
            wr <= 4,
            br <= 4,
        ensures
            r is Some <==> states_of(wr as nat, br as nat) <= usize::MAX,
            r matches Some(n) ==> n == states_of(wr as nat, br as nat),
    {
        let w: u64 = ConfigSpace::new(Player::White, wr).count;
        let b: u64 = ConfigSpace::new(Player::Black, br).count;
        proof {
            lemma_offsets();
            lemma_offset_monotone((wr + 1) as nat, 5);
            lemma_offset_monotone((br + 1) as nat, 5);
            assert(0 <= w * b <= 31931 * 31931) by (nonlinear_arith)
                requires
                    0 <= w <= 31931,
                    0 <= b <= 31931,
            ;
        }
        let n: u64 = w * b * 37 * 37 * 4;
        if n <= usize::MAX as u64 {
            Some(n as usize)
        } else {
            None
        }
    }

    /// A phase with every value unknown.
    pub fn new(wr: usize, br: usize) -> (r: Self)
        requires
            wr <= 4,
            br <= 4,
            states_of(wr as nat, br as nat) <= usize::MAX,
        ensures
            r.wf(),
            r.wr == wr,
            r.br == br,
            forall|i: int| 0 <= i < r.values@.len() ==> #[trigger] r.values@[i] == V_UNKNOWN,
    {
        let wcfg = ConfigSpace::new(Player::White, wr);
        let bcfg = ConfigSpace::new(Player::Black, br);
        let n: usize = Phase::size(wr, br).unwrap();
        let values: Vec<u8> = vec![V_UNKNOWN; n];
        Phase { wr, br, wcfg, bcfg, values }
    }

    /// A phase with given values; none if their number does not fit.
    pub fn from_values(wr: usize, br: usize, values: Vec<u8>) -> (r: Option<Self>)
        requires
            wr <= 4,
            br <= 4,
        ensures
            r is Some <==> values@.len() == states_of(wr as nat, br as nat),
            r matches Some(p) ==> p.wf() && p.wr == wr && p.br == br && p.values == values,
    {
        let len: usize = values.len();
        match Phase::size(wr, br) {
            Some(n) => {
                if len != n {
                    return None;
                }
                let wcfg = ConfigSpace::new(Player::White, wr);
                let bcfg = ConfigSpace::new(Player::Black, br);
                Some(Phase { wr, br, wcfg, bcfg, values })
            },
            None => None,
        }
    }

    pub fn num_states(&self) -> (r: usize)
        requires
            self.wf(),
        ensures
            r == states_of(self.wr as nat, self.br as nat),
    {
        self.values.len()
    }

    /// The values.
    pub fn vals(&self) -> (r: &[u8])
        ensures
            r@ == self.values@,
    {
        self.values.as_slice()
    }

    pub(crate) fn pail_index(pail: u64) -> (r: usize)
        requires
            forall|s: int| #[trigger] on(pail, s) ==> on_board(s),
        ensures
            r == pail_number(pail),
            r <= 36,
    {
        if pail == 0 {
            0
        } else {
            lowest(pail) + 1
        }
    }

    /// The index of a board; none if another phase owns it or the phase has no
    /// number for its barrel sets.
    pub fn index(&self, bb: &BitBoard) -> (r: Option<usize>)
        requires
            self.wf(),
            bb.inv(),
            bb.white_scored <= 4,
            bb.black_scored <= 4,
        ensures
            r is Some <==> in_phase(self.wr as nat, self.br as nat, *bb) && config_ok(
                Player::White,
                self.wr as nat,
                bb.white_barrels,
            ) && config_ok(Player::Black, self.br as nat, bb.black_barrels),
            r matches Some(i) ==> i == index_of(self.br as nat, *bb) && i < self.values@.len(),
            bb.wf() && in_phase(self.wr as nat, self.br as nat, *bb) ==> r is Some,
    {
        proof {
            assert forall|s: int| on(bb.white_barrels, s) || on(bb.black_barrels, s) || on(bb.white_pail, s) || on(
                bb.black_pail,
                s,
            ) implies on_board(s) by {
                bb.lemma_square(s);
            }
            if bb.wf() && in_phase(self.wr as nat, self.br as nat, *bb) {
                lemma_in_phase(self.wr as nat, self.br as nat, *bb);
            }
        }
        if (4 - bb.white_scored as usize) != self.wr || (4 - bb.black_scored as usize) != self.br {
            return None;
        }
        let wi: u64 = match self.wcfg.rank(bb.white_barrels) {
            Some(i) => i,
            None => {
                return None;
            },
        };
        let bi: u64 = match self.bcfg.rank(bb.black_barrels) {
            Some(i) => i,
            None => {
                return None;
            },
        };
        let stm: usize = if bb.current_player == Player::White { 0 } else { 1 };
        let aw: usize = if bb.awaiting_barrel { 1 } else { 0 };
        let wp: usize = Self::pail_index(bb.white_pail);
        let bp: usize = Self::pail_index(bb.black_pail);
        proof {
            lemma_pack_bound(
                offset_of((self.wr + 1) as nat),
                offset_of((self.br + 1) as nat),
                wi as nat,
                bi as nat,
                wp as int,
                bp as int,
                stm as int,
                aw as int,
            );
            lemma_offsets();
            lemma_offset_monotone((self.wr + 1) as nat, 5);
            lemma_offset_monotone((self.br + 1) as nat, 5);
            let (x, y) = (offset_of((self.wr + 1) as nat), offset_of((self.br + 1) as nat));
            assert(x * y <= 31931 * 31931) by (nonlinear_arith)
                requires
                    x <= 31931,
                    y <= 31931,
            ;
        }
        let cfg: u64 = wi * self.bcfg.count + bi;
        assert(self.values.len() == states_of(self.wr as nat, self.br as nat));
        let idx: usize = ((((cfg as usize * PAIL_STATES + wp) * PAIL_STATES + bp) * 2) + stm) * 2 + aw;
        Some(idx)
    }

    /// The game position with an index, if there is one. Move counter, clock
    /// and hash are those of the start of the game.
    pub fn decode(&self, idx: usize) -> (r: Option<BitBoard>)
        requires
            self.wf(),
            idx < self.values@.len(),
        ensures
            r is None <==> forall|b: BitBoard|
                b.proper() && in_phase(self.wr as nat, self.br as nat, b) ==> #[trigger] index_of(self.br as nat, b) != idx,
            r matches Some(b) ==> {
                &&& b.proper()
                &&& in_phase(self.wr as nat, self.br as nat, b)
                &&& index_of(self.br as nat, b) == idx
                &&& b.move_count == 0
                &&& b.halfmove_clock == 0
                &&& b.hash == hash_of(initial_state())
            },
    {
        let ghost wcount = offset_of((self.wr + 1) as nat);
        let ghost bcount = offset_of((self.br + 1) as nat);
        proof {
            lemma_offsets();
            lemma_offset_monotone(1, (self.br + 1) as nat);
            lemma_split_index(wcount, bcount, idx as int);
        }
        let aw: usize = idx % 2;
        let stm: usize = (idx / 2) % 2;
        let bp: usize = (idx / 4) % PAIL_STATES;
        let wp: usize = (idx / (4 * PAIL_STATES)) % PAIL_STATES;
        let cfg: u64 = (idx / (4 * PAIL_STATES * PAIL_STATES)) as u64;
        let wi: u64 = cfg / self.bcfg.count;
        let bi: u64 = cfg % self.bcfg.count;
        let wmask: u64 = self.wcfg.unrank(wi);
        let bmask: u64 = self.bcfg.unrank(bi);
        let wpail: u64 = if wp == 0 { 0 } else { bit(wp - 1) };
        let bpail: u64 = if bp == 0 { 0 } else { bit(bp - 1) };
        let player: Player = if stm == 0 { Player::White } else { Player::Black };
        proof {
            lemma_pail_of_number(wpail, wp as int);
            lemma_pail_of_number(bpail, bp as int);
            assert forall|b: BitBoard|
                b.proper() && in_phase(self.wr as nat, self.br as nat, b) && #[trigger] index_of(self.br as nat, b)
                    == idx implies has_parts(b, wmask, bmask, wpail, bpail, player, aw == 1) by {
                lemma_index_digits(self.wr as nat, self.br as nat, b);
                lemma_in_phase(self.wr as nat, self.br as nat, b);
                law_rank_injective(Player::White, b.white_barrels, wmask);
                law_rank_injective(Player::Black, b.black_barrels, bmask);
                lemma_pail_number(b.white_pail);
                lemma_pail_number(b.black_pail);
            }
        }
        let r = compose(self.wr, self.br, wmask, bmask, wpail, bpail, player, aw == 1);
        proof {
            if let Some(b) = r {
                assert(index_of(self.br as nat, b) == idx);
            }
        }
        r
    }
}

/// The board shows these pieces and this turn.
pub open spec fn has_parts(b: BitBoard, wmask: u64, bmask: u64, wpail: u64, bpail: u64, player: Player, aw: bool) -> bool {
    &&& b.white_barrels == wmask
    &&& b.black_barrels == bmask
    &&& b.white_pail == wpail
    &&& b.black_pail == bpail
    &&& b.current_player == player
    &&& b.awaiting_barrel == aw
}

/// The game position with given pieces and turn; none if pieces overlap or a
/// barrel move is owed without a pail on the board. Move counter, clock and
/// hash are those of the start of the game.
pub(crate) fn compose(
    wr: usize,
    br: usize,
    wmask: u64,
    bmask: u64,
    wpail: u64,
    bpail: u64,
    player: Player,
    aw: bool,
) -> (r: Option<BitBoard>)
    requires
        wr <= 4,
        br <= 4,
        config_ok(Player::White, wr as nat, wmask),
        config_ok(Player::Black, br as nat, bmask),
        at_most_one(wpail),
        at_most_one(bpail),
    ensures
        r is None <==> forall|b: BitBoard|
            b.proper() && in_phase(wr as nat, br as nat, b) ==> !#[trigger] has_parts(
                b,
                wmask,
                bmask,
                wpail,
                bpail,
                player,
                aw,
            ),
        r matches Some(b) ==> {
            &&& b.proper()
            &&& in_phase(wr as nat, br as nat, b)
            &&& has_parts(b, wmask, bmask, wpail, bpail, player, aw)
            &&& b.move_count == 0
            &&& b.halfmove_clock == 0
            &&& b.hash == hash_of(initial_state())
        },
{
    let own_pail: u64 = match player {
        Player::White => wpail,
        Player::Black => bpail,
    };
    let overlap: bool = wmask & bmask != 0 || (wmask | bmask) & (wpail | bpail) != 0 || wpail & bpail != 0;
    if overlap || (aw && own_pail == 0) {
        return None;
    }
    let mut bb = BitBoard::new();
    bb.white_barrels = wmask;
    bb.black_barrels = bmask;
    bb.white_pail = wpail;
    bb.black_pail = bpail;
    bb.white_pail_placed = wpail != 0;
    bb.black_pail_placed = bpail != 0;
    bb.occupied = wmask | bmask | wpail | bpail;
    bb.white_scored = (4 - wr) as u8;
    bb.black_scored = (4 - br) as u8;
    bb.white_barrels_off_board = (wr - count_ones(wmask) as usize) as u8;
    bb.black_barrels_off_board = (br - count_ones(bmask) as usize) as u8;
    bb.current_player = player;
    bb.awaiting_barrel = aw;
    proof {
        lemma_occupied_on_board(bb);
        assert(bb.inv());
        lemma_barrels_popcount(bb, Player::White);
        lemma_barrels_popcount(bb, Player::Black);
        assert forall|s: int| #[trigger] on(bb.white_barrels, s) implies row_of(s) != goal_row_of(Player::White) by {
            lemma_allowed(Player::White, s);
        }
        assert forall|s: int| #[trigger] on(bb.black_barrels, s) implies row_of(s) != goal_row_of(Player::Black) by {
            lemma_allowed(Player::Black, s);
        }
        assert(bb.proper());
        assert(has_parts(bb, wmask, bmask, wpail, bpail, player, aw));
    }
    Some(bb)
}

/// Masks of allowed squares and pails stay on the board.
proof fn lemma_occupied_on_board(bb: BitBoard)
    requires
        all_allowed(Player::White, bb.white_barrels),
        all_allowed(Player::Black, bb.black_barrels),
        at_most_one(bb.white_pail),
        at_most_one(bb.black_pail),
        bb.occupied == (bb.white_barrels | bb.black_barrels | bb.white_pail | bb.black_pail),
    ensures
        bb.occupied & !ALL_SQUARES == 0,
{
    broadcast use group_has;

    lemma_pail_number(bb.white_pail);
    lemma_pail_number(bb.black_pail);
    assert forall|s: int| 0 <= s < 64 implies on(bb.occupied & !ALL_SQUARES, s) == on(0u64, s) by {
        lemma_masks(s);
        assert(on(bb.white_barrels, s) ==> allowed(Player::White, s));
        assert(on(bb.black_barrels, s) ==> allowed(Player::Black, s));
    }
    lemma_mask_ext(bb.occupied & !ALL_SQUARES, 0);
}

/// The pail mask with a number.
pub proof fn lemma_pail_of_number(m: u64, n: int)
    requires
        0 <= n < 37,
        m == (if n == 0 { 0 } else { 1u64 << ((n - 1) as u64) }),
    ensures
        at_most_one(m),
        pail_number(m) == n,
        (m != 0) == (n != 0),
        forall|k: u64| at_most_one(k) && #[trigger] pail_number(k) == n ==> k == m,
{
    broadcast use group_has;

    if n > 0 {
        assert(on(m, n - 1));
        assert(!on(0u64, n - 1));
        let k = (n - 1) as u64;
        assert(m == 1u64 << k);
    }
    lemma_pail_number(m);
    assert forall|k: u64| at_most_one(k) && #[trigger] pail_number(k) == n implies k == m by {
        lemma_pail_number(k);
    }
}

/// The digits of an index below the number of states, put together again.
proof fn lemma_split_index(wcount: nat, bcount: nat, idx: int)
    requires
        bcount > 0,
        0 <= idx < wcount * bcount * 37 * 37 * 4,
    ensures
        ({
            let cfg = idx / 5476;
            let wi = cfg / bcount as int;
            let bi = cfg % bcount as int;
            &&& 0 <= wi < wcount
            &&& 0 <= bi < bcount
            &&& 0 <= cfg < wcount * bcount
            &&& pack_index(
                bcount,
                wi as nat,
                bi as nat,
                (idx / 148) % 37,
                (idx / 4) % 37,
                (idx / 2) % 2,
                idx % 2,
            ) == idx
        }),
{
    let cfg = idx / 5476;
    let b = bcount as int;
    let w = wcount as int;
    let total = w * b;
    assert(wcount * bcount == total);
    assert(cfg < total);
    vstd::arithmetic::div_mod::lemma_fundamental_div_mod(cfg, b);
    vstd::arithmetic::div_mod::lemma_mod_bound(cfg, b);
    vstd::arithmetic::div_mod::lemma_div_pos_is_pos(cfg, b);
    let q = cfg / b;
    assert(q < w) by (nonlinear_arith)
        requires
            cfg < w * b,
            cfg >= b * q,
            b > 0,
    ;
    assert(b * q == q * b) by (nonlinear_arith);
}

} // verus!
