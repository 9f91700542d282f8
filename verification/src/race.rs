//! Race distances of one side alone on the board.
//!
//! For every set of white barrels on the board and every number in hand, with
//! no other piece around, the least number of moves that brings all of them
//! home. Black is looked up through the flipped board.
use vstd::prelude::*;
use vstd::std_specs::bits::u64_trailing_zeros;
use crate::bitboard::BitBoard;
use crate::bitmove::BitMove;
use crate::bits::{count_ones, group_has, lemma_empty, lemma_lowest, lemma_mask_ext, on, popcount};
use crate::board::{Cell, Player};
use crate::configs::{
    all_allowed, allowed, config_ok, law_rank_injective, lemma_allowed, lemma_offsets, lemma_rank_bound, rank_of,
    ConfigSpace,
};
use crate::mirror::mirror_rows;
use crate::movegen::{has_action, lists_legal};
use crate::phase::lemma_barrels_popcount;
use crate::retrograde::lemma_listed_legal;
use crate::rules::{barrel_total, goal_row_of, law_barrels_conserved, Action, GameState};
use crate::squares::{col_of, lemma_masks, on_board, row_of, ALL_SQUARES, BARRELS_PER_PLAYER};

verus! {

/// No way home is known.
pub const UNREACHED: u16 = 0xffff;

/// Five hands for each of the 31931 sets of up to four barrels.
pub const NUM_SLOTS: usize = 159655;

/// White barrels on `mask`, `off` in hand, the rest home, and nothing else on
/// the board; the pails count as placed.
pub open spec fn race_game(mask: u64, off: int) -> GameState {
    GameState {
        cells: Seq::new(
            36,
            |s: int|
                if on(mask, s) {
                    Cell::WhiteBarrel
                } else {
                    Cell::Empty
                },
        ),
        player: Player::White,
        awaiting_barrel: false,
        white_pail_placed: true,
        black_pail_placed: true,
        white_off: off,
        black_off: 4,
        white_scored: 4 - popcount(mask) - off,
        black_scored: 0,
        move_count: 0,
        clock: 0,
    }
}

/// A set of barrels and a hand that a race can be in.
pub open spec fn race_state(mask: u64, off: int) -> bool {
    all_allowed(Player::White, mask) && off >= 0 && popcount(mask) + off <= 4
}

/// The position has white barrels on exactly `mask` and `off` in hand.
pub open spec fn shows(s: GameState, mask: u64, off: int) -> bool {
    s.white_off == off && forall|t: int| #[trigger] on(mask, t) == (on_board(t) && s.cells[t] == Cell::WhiteBarrel)
}

/// One white action leads from one race state to another.
#[verifier::opaque]
pub open spec fn race_step(mask: u64, off: int, mask2: u64, off2: int) -> bool {
    exists|a: Action| race_game(mask, off).legal(a) && #[trigger] shows(race_game(mask, off).apply(a), mask2, off2)
}

#[verifier::spinoff_prover]
proof fn lemma_shows_unique(s: GameState, a: u64, x: int, b: u64, y: int)
    requires
        shows(s, a, x),
        shows(s, b, y),
    ensures
        a == b,
        x == y,
{
    assert forall|t: int| 0 <= t < 64 implies on(a, t) == on(b, t) by {}
    lemma_mask_ext(a, b);
}

/// All barrels can be home after exactly `n` moves.
pub open spec fn home_in(n: nat, mask: u64, off: int) -> bool
    decreases n,
{
    if n == 0 {
        mask == 0 && off == 0
    } else {
        exists|m2: u64, o2: int| #[trigger] race_step(mask, off, m2, o2) && race_state(m2, o2) && home_in((n - 1) as nat, m2, o2)
    }
}

/// `d` is the race distance: the least number of moves, or the mark for none
/// below it.
pub open spec fn is_race_distance(mask: u64, off: int, d: u16) -> bool {
    &&& d < UNREACHED ==> home_in(d as nat, mask, off)
    &&& forall|n: nat| n < d ==> !#[trigger] home_in(n, mask, off)
}

/// What the table answers: the race distance, or the mark for none where the
/// arguments are no race state.
pub open spec fn is_answer(mask: u64, off: int, d: u16) -> bool {
    if race_state(mask, off) {
        is_race_distance(mask, off, d)
    } else {
        d == UNREACHED
    }
}

/// A race state has one distance.
#[verifier::spinoff_prover]
pub proof fn law_race_distance_unique(mask: u64, off: int, a: u16, b: u16)
    requires
        is_race_distance(mask, off, a),
        is_race_distance(mask, off, b),
    ensures
        a == b,
{
    if a < b {
        assert(home_in(a as nat, mask, off));
    }
    if b < a {
        assert(home_in(b as nat, mask, off));
    }
}

#[verifier::spinoff_prover]
proof fn lemma_race_board(b: BitBoard, mask: u64, off: int)
    requires
        race_state(mask, off),
        b.white_barrels == mask,
        b.occupied == mask,
        b.black_barrels == 0,
        b.white_pail == 0,
        b.black_pail == 0,
        b@ == (GameState { cells: b@.cells, ..race_game(mask, off) }),
    ensures
        b.inv(),
        b.rows_ok(),
        b@ == race_game(mask, off),
        barrel_total(b@, Player::White) == 4,
{
    broadcast use group_has;

    assert(mask | 0u64 | 0u64 | 0u64 == mask && mask & 0u64 == 0u64 && (mask | 0u64) & (0u64 | 0u64) == 0u64 && 0u64 & 0u64
        == 0u64) by (bit_vector);
    assert forall|s: int| 0 <= s < 64 implies on(mask & !ALL_SQUARES, s) == on(0u64, s) by {
        lemma_masks(s);
        assert(on(mask, s) ==> allowed(Player::White, s));
    }
    lemma_mask_ext(mask & !ALL_SQUARES, 0);
    assert(b.inv());
    assert forall|s: int| #[trigger] on(b.white_barrels, s) implies row_of(s) != goal_row_of(Player::White) by {
        lemma_allowed(Player::White, s);
    }
    assert(b@.cells =~= race_game(mask, off).cells);
    lemma_barrels_popcount(b, Player::White);
}

/// A legal move leads from a race state to a race state.
#[verifier::spinoff_prover]
proof fn lemma_race_move(b: BitBoard, mask: u64, off: int, mv: BitMove)
    requires
        race_state(mask, off),
        b.inv(),
        b.rows_ok(),
        b@ == race_game(mask, off),
        barrel_total(b@, Player::White) == 4,
        mv.valid(),
        mv.single(),
        b@.legal(mv@),
    ensures
        b.playable(mv),
        race_state(b.played(mv).white_barrels, b.played(mv).white_barrels_off_board as int),
        shows(b@.apply(mv@), b.played(mv).white_barrels, b.played(mv).white_barrels_off_board as int),
{
    reveal(BitBoard::played);
    let r = b.played(mv);
    assert(b.white_barrels_off_board as int == b@.white_off && b.white_scored as int == b@.white_scored);
    assert(b.move_count as int == b@.move_count && b.halfmove_clock as int == b@.clock);
    assert(b.current_player == Player::White);
    law_barrels_conserved(b@, mv@, Player::White);
    assert(!mv.pail_only());
    if mv.places_barrel() {
        b.lemma_played_place(mv.to_sq());
        assert(b.from_hand().arrived(mv.to_sq()).rows_ok());
    } else {
        assert(mv.landings().last() == mv.to_sq());
        b.lemma_played_walk(mv.from_code(), mv.landings());
    }
    assert(r.inv() && r@ == b@.apply(mv@));
    lemma_barrels_popcount(r, Player::White);
    assert forall|s: int| #[trigger] on(r.white_barrels, s) == (on_board(s) && r@.cells[s] == Cell::WhiteBarrel) by {
        r.lemma_square(s);
        if on_board(s) {
            assert(r@.cells[s] == r.cell_at(s));
        }
    }
    assert forall|s: int| #[trigger] on(r.white_barrels, s) implies allowed(Player::White, s) by {
        r.lemma_square(s);
        lemma_allowed(Player::White, s);
    }
}

/// The distances of all race states.
pub struct RaceTable {
    pub cfg: ConfigSpace,
    /// The distance of the set with number `i` and `off` in hand stands at
    /// `i * 5 + off`.
    pub dist: Vec<u16>,
}

/// The place of a state in the table.
pub open spec fn slot_of(mask: u64, off: int) -> int {
    rank_of(Player::White, mask) * 5 + off
}

#[verifier::spinoff_prover]
proof fn lemma_slot(mask: u64, off: int)
    requires
        race_state(mask, off),
    ensures
        0 <= slot_of(mask, off) < NUM_SLOTS,
        slot_of(mask, off) / 5 == rank_of(Player::White, mask),
        slot_of(mask, off) % 5 == off,
{
    lemma_offsets();
    lemma_rank_bound(Player::White, 4, mask);
}

#[verifier::spinoff_prover]
proof fn lemma_slot_injective(a: u64, x: int, b: u64, y: int)
    requires
        race_state(a, x),
        race_state(b, y),
        slot_of(a, x) == slot_of(b, y),
    ensures
        a == b,
        x == y,
{
    lemma_slot(a, x);
    lemma_slot(b, y);
    law_rank_injective(Player::White, a, b);
}

impl RaceTable {
    pub open spec fn wf(&self) -> bool {
        &&& self.cfg.wf()
        &&& self.cfg.player == Player::White
        &&& self.cfg.rem == 4
        &&& self.dist@.len() == NUM_SLOTS
        &&& forall|mask: u64, off: int|
            race_state(mask, off) ==> is_race_distance(mask, off, self.dist@[#[trigger] slot_of(mask, off)])
    }
}

/// The state with slot `x` is one move away.
spec fn steps_to(mask: u64, off: int, x: int) -> bool {
    exists|m2: u64, o2: int| #[trigger] race_step(mask, off, m2, o2) && race_state(m2, o2) && slot_of(m2, o2) == x
}

/// The successors found for a slot.
spec fn lists_steps(list: Seq<usize>, mask: u64, off: int) -> bool {
    &&& forall|k: int|
        0 <= k < list.len() ==> steps_to(mask, off, (#[trigger] list[k]) as int)
    &&& forall|m2: u64, o2: int|
        #[trigger] race_step(mask, off, m2, o2) && race_state(m2, o2) ==> exists|k: int|
            0 <= k < list.len() && #[trigger] list[k] == slot_of(m2, o2)
    &&& forall|k: int| 0 <= k < list.len() ==> #[trigger] list[k] < NUM_SLOTS
}

/// `x` is the place of the state that the move leads to.
spec fn is_slot(x: usize, b: BitBoard, mv: BitMove) -> bool {
    let m = b.played(mv).white_barrels;
    let o = b.played(mv).white_barrels_off_board as int;
    race_state(m, o) && shows(b@.apply(mv@), m, o) && x == slot_of(m, o) && x < NUM_SLOTS
}

#[verifier::spinoff_prover]
proof fn lemma_lists_steps(bb: BitBoard, mask: u64, off: int, moves: Seq<BitMove>, list: Seq<usize>)
    requires
        bb@ == race_game(mask, off),
        lists_legal(moves, bb@),
        list.len() == moves.len(),
        forall|k: int| 0 <= k < list.len() ==> is_slot(#[trigger] list[k], bb, moves[k]),
    ensures
        lists_steps(list, mask, off),
{
    reveal(race_step);
    let st = race_game(mask, off);
    assert forall|k: int| 0 <= k < list.len() implies steps_to(mask, off, (#[trigger] list[k]) as int) && list[k]
        < NUM_SLOTS by {
        assert(is_slot(list[k], bb, moves[k]));
        let m2 = bb.played(moves[k]).white_barrels;
        let o2 = bb.played(moves[k]).white_barrels_off_board as int;
        lemma_listed_legal(moves, bb@, k);
        assert(st.legal(moves[k]@) && shows(st.apply(moves[k]@), m2, o2));
        assert(race_step(mask, off, m2, o2) && race_state(m2, o2) && slot_of(m2, o2) == list[k]);
    }
    assert forall|m2: u64, o2: int| #[trigger] race_step(mask, off, m2, o2) && race_state(m2, o2) implies exists|k: int|
        0 <= k < list.len() && #[trigger] list[k] == slot_of(m2, o2) by {
        let a = choose|a: Action| st.legal(a) && #[trigger] shows(st.apply(a), m2, o2);
        let kind = |a: Action| bb@.legal(a);
        assert(kind(a));
        assert(has_action(moves, 0, a));
        let k = choose|k: int| 0 <= k < moves.len() && (#[trigger] moves[k])@ == a;
        assert(is_slot(list[k], bb, moves[k]));
        let m3 = bb.played(moves[k]).white_barrels;
        let o3 = bb.played(moves[k]).white_barrels_off_board as int;
        lemma_shows_unique(st.apply(a), m2, o2, m3, o3);
        assert(list[k] == slot_of(m2, o2));
    }
}

/// The slots of the states one move away.
#[verifier::spinoff_prover]
fn race_successors(cfg: &ConfigSpace, mask: u64, off: u8) -> (r: Vec<usize>)
    requires
        cfg.wf(),
        cfg.player == Player::White,
        cfg.rem == 4,
        race_state(mask, off as int),
    ensures
        lists_steps(r@, mask, off as int),
{
    let on_count: u32 = count_ones(mask);
    let mut bb = BitBoard::new();
    proof {
        assert(bb.move_count as int == bb@.move_count && bb.halfmove_clock as int == bb@.clock);
    }
    bb.white_barrels = mask;
    bb.black_barrels = 0;
    bb.white_pail = 0;
    bb.black_pail = 0;
    bb.occupied = mask;
    bb.white_pail_placed = true;
    bb.black_pail_placed = true;
    bb.white_barrels_off_board = off;
    bb.white_scored = (4 - on_count - off as u32) as u8;
    proof {
        lemma_race_board(bb, mask, off as int);
    }
    let moves = bb.generate_moves();
    let mut list: Vec<usize> = Vec::new();
    let mut j: usize = 0;
    while j < moves.len()
        invariant
            cfg.wf(),
            cfg.player == Player::White,
            cfg.rem == 4,
            race_state(mask, off as int),
            bb.inv(),
            bb.rows_ok(),
            bb@ == race_game(mask, off as int),
            barrel_total(bb@, Player::White) == 4,
            lists_legal(moves@, bb@),
            j <= moves@.len(),
            list@.len() == j,
            forall|k: int| 0 <= k < j ==> is_slot(#[trigger] list@[k], bb, moves@[k]),
        decreases moves@.len() - j,
    {
        proof {
            lemma_listed_legal(moves@, bb@, j as int);
            lemma_race_move(bb, mask, off as int, moves@[j as int]);
        }
        let mut child = bb;
        child.make_move(&moves[j]);
        proof {
            lemma_slot(child.white_barrels, child.white_barrels_off_board as int);
            assert forall|s: int| #[trigger] on(child.white_barrels, s) implies on_board(s) by {
                assert(allowed(Player::White, s));
            }
        }
        let i: usize = cfg.rank(child.white_barrels).unwrap() as usize;
        let slot: usize = i * 5 + child.white_barrels_off_board as usize;
        assert(is_slot(slot, bb, moves@[j as int]));
        list.push(slot);
        j = j + 1;
    }
    proof {
        lemma_lists_steps(bb, mask, off as int, moves@, list@);
    }
    list
}

spec fn total(d: Seq<u16>) -> nat
    decreases d.len(),
{
    if d.len() == 0 {
        0
    } else {
        total(d.drop_last()) + d.last() as nat
    }
}

#[verifier::spinoff_prover]
proof fn lemma_total_update(d: Seq<u16>, i: int, v: u16)
    requires
        0 <= i < d.len(),
    ensures
        total(d.update(i, v)) + d[i] == total(d) + v,
    decreases d.len(),
{
    let e = d.update(i, v);
    if i == d.len() - 1 {
        assert(e.drop_last() =~= d.drop_last());
    } else {
        assert(e.drop_last() =~= d.drop_last().update(i, v));
        lemma_total_update(d.drop_last(), i, v);
    }
}

/// All successor lists are right.
spec fn graph_ok(succs: Seq<Vec<usize>>, n: int) -> bool {
    &&& forall|mask: u64, off: int|
        race_state(mask, off) && #[trigger] slot_of(mask, off) < n ==> lists_steps(succs[slot_of(mask, off)]@, mask, off)
    &&& forall|x: int, k: int| 0 <= x < n && 0 <= k < succs[x]@.len() ==> #[trigger] succs[x]@[k] < NUM_SLOTS
}

/// Every distance found so far belongs to a way home.
spec fn ways_ok(d: Seq<u16>) -> bool {
    forall|mask: u64, off: int|
        race_state(mask, off) && d[#[trigger] slot_of(mask, off)] < UNREACHED ==> home_in(
            d[slot_of(mask, off)] as nat,
            mask,
            off,
        )
}

/// No distance can be improved by looking one move ahead.
spec fn stable(d: Seq<u16>, succs: Seq<Vec<usize>>, n: int) -> bool {
    forall|x: int, k: int|
        0 <= x < n && 0 <= k < succs[x]@.len() && d[#[trigger] succs[x]@[k] as int] < UNREACHED ==> d[x]
            <= d[succs[x]@[k] as int] + 1
}

#[verifier::spinoff_prover]
proof fn lemma_way(d: Seq<u16>, succs: Seq<Vec<usize>>, x: int, k: int, mask: u64, off: int)
    requires
        ways_ok(d),
        graph_ok(succs, NUM_SLOTS as int),
        race_state(mask, off),
        slot_of(mask, off) == x,
        0 <= x < NUM_SLOTS,
        0 <= k < succs[x]@.len(),
        d[succs[x]@[k] as int] < UNREACHED,
    ensures
        home_in((d[succs[x]@[k] as int] + 1) as nat, mask, off),
{
    let list = succs[x]@;
    assert(lists_steps(list, mask, off));
    assert(steps_to(mask, off, list[k] as int));
    let (m2, o2) = choose|m2: u64, o2: int|
        #[trigger] race_step(mask, off, m2, o2) && race_state(m2, o2) && slot_of(m2, o2) == list[k];
    let n = (d[list[k] as int] + 1) as nat;
    assert(home_in((n - 1) as nat, m2, o2));
    assert(race_step(mask, off, m2, o2) && race_state(m2, o2) && home_in((n - 1) as nat, m2, o2));
}

#[verifier::spinoff_prover]
proof fn lemma_stable_step(d: Seq<u16>, succs: Seq<Vec<usize>>, mask: u64, off: int, m2: u64, o2: int)
    requires
        graph_ok(succs, NUM_SLOTS as int),
        stable(d, succs, NUM_SLOTS as int),
        race_state(mask, off),
        race_state(m2, o2),
        race_step(mask, off, m2, o2),
        d[slot_of(m2, o2)] < UNREACHED,
    ensures
        d[slot_of(mask, off)] <= d[slot_of(m2, o2)] + 1,
{
    lemma_slot(mask, off);
    let x = slot_of(mask, off);
    let list = succs[x]@;
    assert(lists_steps(list, mask, off));
    let k = choose|k: int| 0 <= k < list.len() && #[trigger] list[k] == slot_of(m2, o2);
    assert(d[succs[x]@[k] as int] < UNREACHED);
}

/// A stable table is never above the length of a way home.
#[verifier::spinoff_prover]
proof fn lemma_stable_least(d: Seq<u16>, succs: Seq<Vec<usize>>, n: nat, mask: u64, off: int)
    requires
        d.len() == NUM_SLOTS,
        graph_ok(succs, NUM_SLOTS as int),
        stable(d, succs, NUM_SLOTS as int),
        d[0] == 0,
        race_state(mask, off),
        home_in(n, mask, off),
        n < UNREACHED,
    ensures
        d[slot_of(mask, off)] <= n,
    decreases n,
{
    lemma_slot(mask, off);
    if n == 0 {
        lemma_slot_zero();
    } else {
        let (m2, o2) = choose|m2: u64, o2: int|
            #[trigger] race_step(mask, off, m2, o2) && race_state(m2, o2) && home_in((n - 1) as nat, m2, o2);
        lemma_stable_least(d, succs, (n - 1) as nat, m2, o2);
        lemma_stable_step(d, succs, mask, off, m2, o2);
    }
}

#[verifier::spinoff_prover]
proof fn lemma_slot_zero()
    ensures
        slot_of(0, 0) == 0,
        race_state(0, 0),
{
    broadcast use group_has;

    crate::bits::lemma_count_empty(0, 64);
    assert(crate::configs::shifted(Player::White, 0) == 0) by {
        assert(0u64 >> 6 == 0u64) by (bit_vector);
    }
    lemma_colex_zero(30);
    lemma_offsets();
}

#[verifier::spinoff_prover]
proof fn lemma_colex_zero(n: nat)
    ensures
        crate::combin::colex(0, n) == 0,
    decreases n,
{
    broadcast use group_has;

    if n > 0 {
        lemma_colex_zero((n - 1) as nat);
    }
}

/// One slot with a state of its own.
#[verifier::spinoff_prover]
proof fn lemma_slot_state(i: int, mask: u64, off: int, m: u64, o: int)
    requires
        config_ok(Player::White, 4, mask),
        rank_of(Player::White, mask) == i,
        0 <= off < 5,
        race_state(m, o),
        slot_of(m, o) == i * 5 + off,
    ensures
        m == mask,
        o == off,
{
    lemma_slot(m, o);
    law_rank_injective(Player::White, m, mask);
}

impl RaceTable {
    /// The successor lists of all slots.
    #[verifier::spinoff_prover]
    fn build_graph(cfg: &ConfigSpace) -> (succs: Vec<Vec<usize>>)
        requires
            cfg.wf(),
            cfg.player == Player::White,
            cfg.rem == 4,
        ensures
            succs@.len() == NUM_SLOTS,
            graph_ok(succs@, NUM_SLOTS as int),
    {
        proof {
            lemma_offsets();
        }
        let mut succs: Vec<Vec<usize>> = Vec::new();
        let mut i: u64 = 0;
        while i < cfg.count
            invariant
                cfg.wf(),
                cfg.player == Player::White,
                cfg.rem == 4,
                cfg.count == 31931,
                i <= 31931,
                succs@.len() == i * 5,
                graph_ok(succs@, i * 5),
            decreases 31931 - i,
        {
            let mask: u64 = cfg.unrank(i);
            let on_count: u32 = count_ones(mask);
            let mut off: u8 = 0;
            while off < 5
                invariant
                    cfg.wf(),
                    cfg.player == Player::White,
                    cfg.rem == 4,
                    i < 31931,
                    off <= 5,
                    config_ok(Player::White, 4, mask),
                    rank_of(Player::White, mask) == i,
                    on_count == popcount(mask),
                    on_count <= 4,
                    succs@.len() == i * 5 + off,
                    graph_ok(succs@, i * 5 + off),
                decreases 5 - off,
            {
                let ghost before = succs@;
                let list: Vec<usize> = if on_count + off as u32 <= 4 {
                    race_successors(cfg, mask, off)
                } else {
                    Vec::new()
                };
                succs.push(list);
                proof {
                    let n = i * 5 + off;
                    assert forall|m: u64, o: int| race_state(m, o) && #[trigger] slot_of(m, o) < n + 1 implies lists_steps(
                        succs@[slot_of(m, o)]@,
                        m,
                        o,
                    ) by {
                        lemma_slot(m, o);
                        if slot_of(m, o) < n {
                            assert(succs@[slot_of(m, o)] == before[slot_of(m, o)]);
                        } else {
                            lemma_slot_state(i as int, mask, off as int, m, o);
                        }
                    }
                    assert forall|x: int, k: int| 0 <= x < n + 1 && 0 <= k < succs@[x]@.len() implies #[trigger] succs@[x]@[k]
                        < NUM_SLOTS by {
                        if x < n {
                            assert(succs@[x] == before[x]);
                            assert(before[x]@[k] < NUM_SLOTS);
                        } else if on_count + off <= 4 {
                            assert(lists_steps(succs@[x]@, mask, off as int));
                        }
                    }
                }
                off = off + 1;
            }
            i = i + 1;
        }
        succs
    }

    /// One sweep over all slots, each taking one more than its best successor.
    /// Returns whether a distance changed.
    #[verifier::spinoff_prover]
    fn sweep(dist: &mut Vec<u16>, succs: &Vec<Vec<usize>>) -> (changed: bool)
        requires
            old(dist)@.len() == NUM_SLOTS,
            succs@.len() == NUM_SLOTS,
            graph_ok(succs@, NUM_SLOTS as int),
            ways_ok(old(dist)@),
            old(dist)@[0] == 0,
        ensures
            final(dist)@.len() == NUM_SLOTS,
            ways_ok(final(dist)@),
            final(dist)@[0] == 0,
            changed ==> total(final(dist)@) < total(old(dist)@),
            !changed ==> final(dist)@ == old(dist)@ && stable(final(dist)@, succs@, NUM_SLOTS as int),
    {
        let ghost start = dist@;
        let n: usize = dist.len();
        let mut changed: bool = false;
        let mut x: usize = 0;
        while x < n
            invariant
                n == NUM_SLOTS,
                x <= n,
                dist@.len() == n,
                succs@.len() == n,
                graph_ok(succs@, NUM_SLOTS as int),
                ways_ok(dist@),
                dist@[0] == 0,
                changed ==> total(dist@) < total(start),
                !changed ==> dist@ == start && stable(dist@, succs@, x as int),
            decreases n - x,
        {
            let mut best: u16 = UNREACHED;
            let list = &succs[x];
            let mut k: usize = 0;
            while k < list.len()
                invariant
                    n == NUM_SLOTS,
                    x < n,
                    dist@.len() == n,
                    succs@.len() == n,
                    list@ == succs@[x as int]@,
                    graph_ok(succs@, NUM_SLOTS as int),
                    k <= list@.len(),
                    best < UNREACHED ==> exists|j: int| 0 <= j < k && dist@[#[trigger] list@[j] as int] == best,
                    forall|j: int| 0 <= j < k ==> best <= dist@[#[trigger] list@[j] as int],
                decreases list@.len() - k,
            {
                assert(succs@[x as int]@[k as int] < NUM_SLOTS);
                let d: u16 = dist[list[k]];
                if d < best {
                    best = d;
                    assert(dist@[list@[k as int] as int] == best);
                }
                k = k + 1;
            }
            let ghost before = dist@;
            if best != UNREACHED && best + 1 < dist[x] {
                dist.set(x, best + 1);
                changed = true;
                proof {
                    lemma_total_update(before, x as int, (best + 1) as u16);
                    let j = choose|j: int| 0 <= j < list@.len() && before[#[trigger] list@[j] as int] == best;
                    assert forall|mask: u64, off: int|
                        race_state(mask, off) && dist@[#[trigger] slot_of(mask, off)] < UNREACHED implies home_in(
                        dist@[slot_of(mask, off)] as nat,
                        mask,
                        off,
                    ) by {
                        lemma_slot(mask, off);
                        if slot_of(mask, off) == x {
                            lemma_way(before, succs@, x as int, j, mask, off);
                        } else {
                            assert(before[slot_of(mask, off)] == dist@[slot_of(mask, off)]);
                        }
                    }
                }
            } else {
                proof {
                    if !changed {
                        assert forall|y: int, j: int|
                            0 <= y < x + 1 && 0 <= j < succs@[y]@.len() && dist@[#[trigger] succs@[y]@[j] as int]
                                < UNREACHED implies dist@[y] <= dist@[succs@[y]@[j] as int] + 1 by {
                            if y == x {
                                assert(best <= dist@[list@[j] as int]);
                            }
                        }
                    }
                }
            }
            x = x + 1;
        }
        changed
    }

    /// Builds the table by sweeping until no distance changes.
    #[verifier::spinoff_prover]
    pub fn build() -> (r: Self)
        ensures
            r.wf(),
    {
        let cfg = ConfigSpace::new(Player::White, BARRELS_PER_PLAYER);
        proof {
            lemma_offsets();
        }
        let succs = RaceTable::build_graph(&cfg);
        let mut dist: Vec<u16> = vec![UNREACHED; NUM_SLOTS];
        dist.set(0, 0);
        proof {
            lemma_slot_zero();
            assert forall|mask: u64, off: int|
                race_state(mask, off) && dist@[#[trigger] slot_of(mask, off)] < UNREACHED implies home_in(
                dist@[slot_of(mask, off)] as nat,
                mask,
                off,
            ) by {
                lemma_slot(mask, off);
                lemma_slot_injective(mask, off, 0, 0);
            }
        }
        let mut changed: bool = true;
        while changed
            invariant
                dist@.len() == NUM_SLOTS,
                succs@.len() == NUM_SLOTS,
                graph_ok(succs@, NUM_SLOTS as int),
                ways_ok(dist@),
                dist@[0] == 0,
                !changed ==> stable(dist@, succs@, NUM_SLOTS as int),
            decreases total(dist@), (if changed { 1int } else { 0int }),
        {
            changed = RaceTable::sweep(&mut dist, &succs);
        }
        proof {
            assert forall|mask: u64, off: int| race_state(mask, off) implies is_race_distance(
                mask,
                off,
                dist@[#[trigger] slot_of(mask, off)],
            ) by {
                let d = dist@[slot_of(mask, off)];
                assert forall|n: nat| n < d implies !#[trigger] home_in(n, mask, off) by {
                    if home_in(n, mask, off) {
                        lemma_stable_least(dist@, succs@, n, mask, off);
                    }
                }
            }
        }
        RaceTable { cfg, dist }
    }

    /// The least number of moves that brings home white barrels on `mask` and
    /// `off` more from the hand; the mark for none where that is no race state.
    #[verifier::spinoff_prover]
    pub fn lookup(&self, mask: u64, off: u8) -> (r: u16)
        requires
            self.wf(),
        ensures
            is_answer(mask, off as int, r),
    {
        broadcast use group_has;

        proof {
            lemma_empty(mask & !ALL_SQUARES);
            assert forall|s: int| #[trigger] on(mask & !ALL_SQUARES, s) == (on(mask, s) && !on_board(s)) by {
                lemma_masks(s);
            }
        }
        if mask & !ALL_SQUARES != 0 {
            proof {
                let s = vstd::std_specs::bits::u64_trailing_zeros(mask & !ALL_SQUARES) as int;
                crate::bits::lemma_lowest(mask & !ALL_SQUARES);
                assert(on(mask & !ALL_SQUARES, s));
            }
            return UNREACHED;
        }
        proof {
            assert forall|s: int| #[trigger] on(mask, s) implies on_board(s) by {
                assert(!on(mask & !ALL_SQUARES, s));
            }
        }
        let on_count: u32 = count_ones(mask);
        match self.cfg.rank(mask) {
            Some(i) => {
                if on_count + off as u32 > 4 {
                    return UNREACHED;
                }
                proof {
                    lemma_slot(mask, off as int);
                }
                self.dist[i as usize * 5 + off as usize]
            },
            None => UNREACHED,
        }
    }

    /// The race distance of either side of a position.
    #[verifier::spinoff_prover]
    pub fn side_distance(&self, bb: &BitBoard, player: Player) -> (r: u16)
        requires
            self.wf(),
            bb.inv(),
        ensures
            player == Player::White ==> is_answer(bb.white_barrels, bb.white_barrels_off_board as int, r),
            player == Player::Black ==> forall|m: u64| #[trigger]
                flipped(m, bb.black_barrels) ==> is_answer(m, bb.black_barrels_off_board as int, r),
    {
        proof {
            assert forall|s: int| #[trigger] on(bb.black_barrels, s) implies on_board(s) by {
                bb.lemma_square(s);
            }
        }
        match player {
            Player::White => self.lookup(bb.white_barrels, bb.white_barrels_off_board),
            Player::Black => {
                let m: u64 = mirror_rows(bb.black_barrels);
                proof {
                    assert forall|k: u64| #[trigger] flipped(k, bb.black_barrels) implies k == m by {
                        assert forall|s: int| 0 <= s < 64 implies on(k, s) == on(m, s) by {}
                        lemma_mask_ext(k, m);
                    }
                }
                self.lookup(m, bb.black_barrels_off_board)
            },
        }
    }
}

/// `m` is `b` with its rows flipped.
pub open spec fn flipped(m: u64, b: u64) -> bool {
    forall|s: int| #[trigger] on(m, s) == (on_board(s) && on(b, crate::mirror::flip(s)))
}

/// The sum of the rows of the members below `n`.
pub open spec fn row_sum(mask: u64, n: nat) -> nat
    decreases n,
{
    if n == 0 {
        0
    } else {
        row_sum(mask, (n - 1) as nat) + if on(mask, n - 1) {
            row_of(n - 1) as nat
        } else {
            0nat
        }
    }
}

/// Steps straight ahead, with a placement for each barrel in hand.
pub open spec fn plain_walk(mask: u64, off: int) -> int {
    row_sum(mask, 36) + 6 * off
}

#[verifier::spinoff_prover]
proof fn lemma_row_sum_change(a: u64, b: u64, s: int, n: nat)
    requires
        n <= 36,
        0 <= s < 36,
        on(a, s),
        !on(b, s),
        forall|t: int| #[trigger] on(b, t) == (on(a, t) && t != s),
    ensures
        row_sum(a, n) == row_sum(b, n) + if s < n { row_of(s) } else { 0 },
    decreases n,
{
    if n > 0 {
        lemma_row_sum_change(a, b, s, (n - 1) as nat);
        assert(on(b, n - 1) == (on(a, n - 1) && n - 1 != s));
    }
}

#[verifier::spinoff_prover]
proof fn lemma_row_sum_bound(mask: u64, n: nat)
    requires
        n <= 36,
    ensures
        row_sum(mask, n) <= 5 * crate::bits::count_below(mask, n),
    decreases n,
{
    if n > 0 {
        lemma_row_sum_bound(mask, (n - 1) as nat);
    }
}

#[verifier::spinoff_prover]
proof fn lemma_row_sum_empty(n: nat)
    ensures
        row_sum(0, n) == 0,
    decreases n,
{
    broadcast use group_has;

    if n > 0 {
        lemma_row_sum_empty((n - 1) as nat);
    }
}

/// Taking the front barrel one step ahead shortens the walk by one.
#[verifier::spinoff_prover]
proof fn lemma_front_step(mask: u64, off: int) -> (m2: u64)
    requires
        race_state(mask, off),
        mask != 0,
    ensures
        race_step(mask, off, m2, off),
        race_state(m2, off),
        plain_walk(m2, off) == plain_walk(mask, off) - 1,
{
    broadcast use group_has;

    reveal(race_step);
    lemma_lowest(mask);
    let s = u64_trailing_zeros(mask) as int;
    assert(allowed(Player::White, s));
    let t = s - 6;
    let st = race_game(mask, off);
    let a = Action::Walk { from: s, path: seq![t] };
    assert(row_of(t) == row_of(s) - 1 && col_of(t) == col_of(s));
    assert(!on(mask, t));
    assert(st.legal(a));
    let kept = mask & (mask - 1) as u64;
    lemma_row_sum_change(mask, kept, s, 36);
    crate::bits::lemma_count_remove(mask, kept, s, 64);
    if row_of(t) == 0 {
        assert(shows(st.apply(a), kept, off));
        kept
    } else {
        let m2 = kept | (1u64 << (t as u64));
        assert forall|u: int| #[trigger] on(kept, u) == (on(m2, u) && u != t) by {
            assert(on(1u64 << (t as u64), u) == (u == t));
        }
        assert(on(m2, t)) by {
            assert(on(1u64 << (t as u64), t));
        }
        lemma_row_sum_change(m2, kept, t, 36);
        crate::bits::lemma_count_remove(m2, kept, t, 64);
        assert(all_allowed(Player::White, m2)) by {
            assert forall|u: int| #[trigger] on(m2, u) implies allowed(Player::White, u) by {
                assert(on(kept, u) == (on(m2, u) && u != t));
            }
        }
        assert(shows(st.apply(a), m2, off)) by {
            assert forall|u: int| #[trigger] on(m2, u) == (on_board(u) && st.apply(a).cells[u] == Cell::WhiteBarrel) by {
                assert(on(kept, u) == (on(m2, u) && u != t));
            }
        }
        m2
    }
}

/// Placing a barrel on the empty board shortens the walk by one.
#[verifier::spinoff_prover]
proof fn lemma_first_placement(off: int) -> (m2: u64)
    requires
        race_state(0, off),
        off > 0,
    ensures
        race_step(0, off, m2, off - 1),
        race_state(m2, off - 1),
        plain_walk(m2, off - 1) == plain_walk(0, off) - 1,
{
    broadcast use group_has;

    reveal(race_step);
    let st = race_game(0, off);
    let a = Action::Place { to: 30 };
    assert(st.legal(a));
    let m2 = 1u64 << 30u64;
    assert forall|u: int| #[trigger] on(0u64, u) == (on(m2, u) && u != 30) by {}
    assert(on(m2, 30));
    lemma_row_sum_change(m2, 0, 30, 36);
    lemma_row_sum_empty(36);
    crate::bits::lemma_count_remove(m2, 0, 30, 64);
    crate::bits::lemma_count_empty(0, 64);
    assert(shows(st.apply(a), m2, off - 1));
    m2
}

/// Walking straight ahead brings everything home.
#[verifier::spinoff_prover]
proof fn lemma_walk_home(mask: u64, off: int)
    requires
        race_state(mask, off),
    ensures
        plain_walk(mask, off) >= 0,
        home_in(plain_walk(mask, off) as nat, mask, off),
    decreases plain_walk(mask, off),
{
    let n = plain_walk(mask, off);
    if mask != 0 {
        let m2 = lemma_front_step(mask, off);
        lemma_walk_home(m2, off);
        assert(race_step(mask, off, m2, off) && race_state(m2, off) && home_in((n - 1) as nat, m2, off));
    } else if off > 0 {
        let m2 = lemma_first_placement(off);
        lemma_walk_home(m2, off - 1);
        assert(race_step(mask, off, m2, off - 1) && race_state(m2, off - 1) && home_in((n - 1) as nat, m2, off - 1));
    } else {
        lemma_row_sum_empty(36);
    }
}

/// Every set of barrels and hand has an answer.
#[verifier::spinoff_prover]
pub(crate) proof fn lemma_distance(mask: u64, off: int) -> (d: u16)
    ensures
        is_answer(mask, off, d),
{
    if race_state(mask, off) {
        lemma_walk_home(mask, off);
        lemma_row_sum_bound(mask, 36);
        assert forall|s: int| 36 <= s < 64 implies !on(mask, s) by {
            assert(on(mask, s) ==> allowed(Player::White, s));
        }
        crate::phase::lemma_count_tail(mask, 36, 64);
        let d = lemma_least(mask, off, plain_walk(mask, off) as nat);
        d as u16
    } else {
        UNREACHED
    }
}

/// The least number of moves up to one that suffices.
#[verifier::spinoff_prover]
proof fn lemma_least(mask: u64, off: int, n: nat) -> (d: nat)
    requires
        home_in(n, mask, off),
    ensures
        d <= n,
        home_in(d, mask, off),
        forall|k: nat| k < d ==> !#[trigger] home_in(k, mask, off),
    decreases n,
{
    if exists|k: nat| k < n && #[trigger] home_in(k, mask, off) {
        let k = choose|k: nat| k < n && #[trigger] home_in(k, mask, off);
        lemma_least(mask, off, k)
    } else {
        n
    }
}

/// A race is never longer than walking every barrel straight ahead, and so
/// never longer than twenty-four moves.
#[verifier::spinoff_prover]
pub proof fn law_race_bound(mask: u64, off: int, d: u16)
    requires
        race_state(mask, off),
        is_race_distance(mask, off, d),
    ensures
        d <= plain_walk(mask, off),
        plain_walk(mask, off) <= 24,
{
    lemma_walk_home(mask, off);
    lemma_row_sum_bound(mask, 36);
    assert forall|s: int| 36 <= s < 64 implies !on(mask, s) by {
        assert(on(mask, s) ==> allowed(Player::White, s));
    }
    crate::phase::lemma_count_tail(mask, 36, 64);
    if d > plain_walk(mask, off) {
        assert(!home_in(plain_walk(mask, off) as nat, mask, off));
    }
}

} // verus!
