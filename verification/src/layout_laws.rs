//! How positions are mirrored and numbered, and what numbers moves are ordered by.
use vstd::prelude::*;
use crate::accumulator::DualAccumulator;
use crate::bitboard::BitBoard;
use crate::bitmove::BitMove;
use crate::bits::{count_below, lemma_empty, lemma_lowest, on, popcount};
use crate::board::{Cell, Player};
use crate::combin::{colex, lemma_colex_bound};
use crate::configs::{
    allowed, base_of, config_ok, lemma_offset_monotone, lemma_offsets, lemma_popcount_shifted, lemma_rank_bound, lemma_shifted,
    shifted, ConfigSpace,
};
use crate::dense::{dense_inputs, dense_num, in_128ths, DENSE_DEN};
use crate::engine::{within, BitBoardEngine, OutputLayer};
use crate::eval_laws::over;
use crate::mirror::{color_mirror, flip, mirror_rows, mirror_sq, swap_cell};
use crate::net_laws::lemma_lists_side;
use crate::network::{dot_below, lemma_sizes, SparseNNUE};
use crate::ordering::cont_with;
use crate::packed::{lemma_mirrored, PackedPhase};
use crate::phase::{pail_number, Phase};
use crate::race::{flipped, home_in, law_race_bound, law_race_distance_unique, race_state, RaceTable};
use crate::race_bounds::law_race_at_least;
use crate::rules::pail_of;
use crate::squares::on_board;

verus! {

/// Mirroring turns the rows round and leaves the columns.
pub proof fn law_mirrored_squares(s: usize, r: usize, mask: u64, m: u64, t: int)
    requires
        s < 36,
        0 <= t < 36,
        call_ensures(mirror_sq, (s,), r),
        call_ensures(mirror_rows, (mask,), m),
    ensures
        r / 6 == 5 - s / 6,
        r % 6 == s % 6,
        on(m, t) == on(mask, 6 * (5 - t / 6) + t % 6),
{
}

/// A mirrored position has every piece in the other colour and on the mirrored row
/// of its column, and everything that belongs to a side belongs to the other.
pub proof fn law_mirrored_positions(b: BitBoard, m: BitBoard, t: int)
    requires
        0 <= t < 36,
        call_ensures(color_mirror, (&b,), m),
    ensures
        ({
            let x = b@.cells[t];
            let y = m@.cells[6 * (5 - t / 6) + t % 6];
            &&& x == Cell::Empty <==> y == Cell::Empty
            &&& x == Cell::WhiteBarrel <==> y == Cell::BlackBarrel
            &&& x == Cell::BlackBarrel <==> y == Cell::WhiteBarrel
            &&& x == Cell::WhitePail <==> y == Cell::BlackPail
            &&& x == Cell::BlackPail <==> y == Cell::WhitePail
        }),
        m@.player != b@.player,
        m@.white_off == b@.black_off && m@.black_off == b@.white_off,
        m@.white_scored == b@.black_scored && m@.black_scored == b@.white_scored,
        m@.white_pail_placed == b@.black_pail_placed && m@.black_pail_placed == b@.white_pail_placed,
        m@.awaiting_barrel == b@.awaiting_barrel,
{
    let s = 6 * (5 - t / 6) + t % 6;
    assert(6 * (5 - s / 6) + s % 6 == t);
    assert(m@.cells[s] == swap_cell(b@.cells[flip(s)]));
}

/// Two boards alike but for what is told in the last parts of an index.
pub open spec fn same_barrels(a: BitBoard, b: BitBoard) -> bool {
    a.white_barrels == b.white_barrels && a.black_barrels == b.black_barrels
}

/// A pail's number: none is zero, and the squares follow from one on.
pub open spec fn pail_place(cells: Seq<Cell>, pail: Cell, n: int) -> bool {
    if n == 0 {
        forall|s: int| 0 <= s < 36 ==> cells[s] != pail
    } else {
        1 <= n <= 36 && cells[n - 1] == pail
    }
}

proof fn lemma_pail_place(b: BitBoard, p: Player, n: int)
    requires
        b.wf(),
        pail_place(b@.cells, pail_of(p), n),
    ensures
        pail_number(b.pail_mask_of(p)) == n,
{
    let mask = b.pail_mask_of(p);
    assert forall|s: int| 0 <= s < 36 implies on(mask, s) == (#[trigger] b@.cells[s] == pail_of(p)) by {
        b.lemma_square(s);
        assert(b@.cells[s] == b.cell_at(s));
        assert(on(b.pail_mask_of(p), s) == (b.cell_at(s) == pail_of(p)));
    }
    if mask != 0 {
        lemma_lowest(mask);
        let low = vstd::std_specs::bits::u64_trailing_zeros(mask) as int;
        b.lemma_square(low);
        assert(on(mask, low));
        assert(0 <= low < 36);
        assert(b@.cells[low] == pail_of(p));
        if n > 0 {
            lemma_lists_side(b, p, n - 1);
            lemma_lists_side(b, p, low);
        }
    } else {
        if n > 0 {
            assert(on(mask, n - 1));
            lemma_empty(mask);
        }
    }
}

/// In a phase the index counts a barrel that is owed as one, black to move as two,
/// black's pail by fours and white's by thirty-seven times as much.
#[verifier::spinoff_prover]
pub proof fn law_phase_indices(p: Phase, a: BitBoard, b: BitBoard, i: usize, j: usize, aw: int, ab: int, bw: int, bb: int)
    requires
        a.wf(),
        b.wf(),
        same_barrels(a, b),
        pail_place(a@.cells, Cell::WhitePail, aw),
        pail_place(a@.cells, Cell::BlackPail, ab),
        pail_place(b@.cells, Cell::WhitePail, bw),
        pail_place(b@.cells, Cell::BlackPail, bb),
        call_ensures(Phase::index, (&p, &a), Some(i)),
        call_ensures(Phase::index, (&p, &b), Some(j)),
    ensures
        ({
            let owed = (if b.awaiting_barrel {
                1int
            } else {
                0
            }) - (if a.awaiting_barrel {
                1int
            } else {
                0
            });
            let side = (if b.current_player == Player::Black {
                2int
            } else {
                0
            }) - (if a.current_player == Player::Black {
                2int
            } else {
                0
            });
            j - i == 148 * (bw - aw) + 4 * (bb - ab) + side + owed
        }),
{
    lemma_pail_place(a, Player::White, aw);
    lemma_pail_place(a, Player::Black, ab);
    lemma_pail_place(b, Player::White, bw);
    lemma_pail_place(b, Player::Black, bb);
}

/// A packed phase tells of a position with white to move what it holds: 1 that white
/// wins, 2 that black does, 0 neither, and of what it holds as 3 nothing.
#[verifier::spinoff_prover]
pub proof fn law_packed_answers(p: PackedPhase, b: BitBoard, i: usize, e: u8, r: Option<u8>)
    requires
        call_ensures(PackedPhase::index, (&p, &b), Some(i)),
        call_ensures(PackedPhase::get, (&p, i), e),
        call_ensures(PackedPhase::value, (&p, &b), r),
    ensures
        e == 1 ==> r == Some(1u8),
        e == 2 ==> r == Some(129u8),
        e == 0 ==> r == Some(128u8),
        e == 3 ==> r is None,
{
}

/// Of a position with black to move it tells the opposite of what it holds of the
/// mirrored one.
#[verifier::spinoff_prover]
pub proof fn law_packed_answers_mirrored(p: PackedPhase, b: BitBoard, m: BitBoard, i: usize, e: u8, r: Option<u8>)
    requires
        b.current_player == Player::Black,
        call_ensures(color_mirror, (&b,), m),
        call_ensures(PackedPhase::index, (&p, &m), Some(i)),
        call_ensures(PackedPhase::get, (&p, i), e),
        call_ensures(PackedPhase::value, (&p, &b), r),
    ensures
        e == 1 ==> r == Some(129u8),
        e == 2 ==> r == Some(1u8),
        e == 0 ==> r == Some(128u8),
        e == 3 ==> r is None,
{
    lemma_mirrored(m, b);
}

/// A side's race takes at least a move for every barrel on the board and two for
/// every one in hand, and none exactly if all of them are home.
#[verifier::spinoff_prover]
pub proof fn law_races_count_moves(race: RaceTable, b: BitBoard, d: u16)
    requires
        race_state(b.white_barrels, b.white_barrels_off_board as int),
        call_ensures(RaceTable::side_distance, (&race, &b, Player::White), d),
    ensures
        d >= popcount(b.white_barrels) + 2 * b.white_barrels_off_board,
        d <= 24,
        b.white_barrels == 0 && b.white_barrels_off_board == 0 ==> d == 0,
{
    law_race_at_least(b.white_barrels, b.white_barrels_off_board as int, d);
    law_race_bound(b.white_barrels, b.white_barrels_off_board as int, d);
    if b.white_barrels == 0 && b.white_barrels_off_board == 0 {
        assert(home_in(0, 0, 0));
    }
}

/// Black's race is white's from the mirrored position.
#[verifier::spinoff_prover]
pub proof fn law_races_mirror(race: RaceTable, b: BitBoard, m: BitBoard, d: u16, e: u16)
    requires
        b.inv(),
        m.inv(),
        race_state(m.white_barrels, m.white_barrels_off_board as int),
        call_ensures(color_mirror, (&b,), m),
        call_ensures(RaceTable::side_distance, (&race, &b, Player::Black), d),
        call_ensures(RaceTable::side_distance, (&race, &m, Player::White), e),
    ensures
        d == e,
{
    assert(m@.white_off == b@.black_off);
    assert(flipped(m.white_barrels, b.black_barrels)) by {
        assert forall|s: int| #[trigger]
            on(m.white_barrels, s) == (on_board(s) && on(b.black_barrels, flip(s))) by {
            m.lemma_square(s);
            if 0 <= s < 36 {
                let t = flip(s);
                b.lemma_square(t);
                assert(m@.cells[s] == m.cell_at(s));
                assert(b@.cells[t] == b.cell_at(t));
                assert(m@.cells[s] == swap_cell(b@.cells[t]));
            }
        }
    }
    law_race_distance_unique(m.white_barrels, m.white_barrels_off_board as int, d, e);
}

/// With nothing learned yet a walk is ordered by a hundred for every row it gains,
/// fifty for every jump after the first and five hundred for coming home; a barrel
/// from the hand by fifty and ten more for every column it is nearer to the fourth.
#[verifier::spinoff_prover]
pub proof fn law_fresh_engines_order_by_shape<L: OutputLayer>(e: BitBoardEngine<L>, m: BitMove, p: Player, depth: usize, r: i32)
    requires
        e.is_fresh(),
        m.valid(),
        m.pail_code() == 63,
        m.from_code() != 63 || m.places_barrel(),
        call_ensures(BitBoardEngine::<L>::score_move, (&e, &m, p, depth, None), r),
    ensures
        ({
            let to = m.to_sq() as int;
            let home = p == Player::White && to / 6 == 0 || p == Player::Black && to / 6 == 5;
            let bonus: int = if home {
                500
            } else {
                0
            };
            if m.places_barrel() {
                r == bonus + 50 + 10 * (3 - if to % 6 < 3 {
                    3 - to % 6
                } else {
                    to % 6 - 3
                })
            } else {
                let rows = m.from_code() / 6 - to / 6;
                r == bonus + 50 * (m.len() - 1) + 100 * (if p == Player::White {
                    rows
                } else {
                    -rows
                })
            }
        }),
{
    if depth < 32 {
        assert(e.killer_moves@[depth as int].0 is None && e.killer_moves@[depth as int].1 is None);
    }
    if !m.places_barrel() {
        let i = 36 * m.from_code() + m.to_sq();
        assert(0 <= i < 1296);
        assert(e.history@[i] == 0);
    }
}

/// A reply that cuts off gains with the move before it, by the square of the depth
/// up to a limit, and no other pair of moves does.
pub proof fn law_replies_gain_together(v: Seq<i32>, prev: BitMove, m: BitMove, depth: int, i: int)
    requires
        within(v, 1296, -32_000, 32_000),
        0 <= depth <= 255,
        0 <= prev.to_sq() < 36,
        0 <= m.to_sq() < 36,
        0 <= i < 1296,
    ensures
        ({
            let w = cont_with(v, prev, m, depth);
            &&& w.len() == 1296
            &&& i == 36 * prev.to_sq() + m.to_sq() && v[i] + depth * depth <= 32_000 ==> w[i] == v[i] + depth * depth
            &&& i == 36 * prev.to_sq() + m.to_sq() && v[i] + depth * depth > 32_000 ==> w[i] == 32_000
            &&& i != 36 * prev.to_sq() + m.to_sq() ==> w[i] == v[i]
        }),
{
    assert(0 <= depth * depth <= 65_025) by (nonlinear_arith)
        requires
            0 <= depth <= 255,
    ;
}

/// With every neuron off each sum of the second layer is that of the dense inputs,
/// each times its weight behind those of the neurons.
#[verifier::spinoff_prover]
pub proof fn law_dense_inputs_are_weighed(
    net: SparseNNUE,
    b: BitBoard,
    race: RaceTable,
    x: DualAccumulator,
    d: [i16; 32],
    p: (usize, Vec<i32>),
    n: int,
)
    requires
        net.wf(),
        net.sums_fit(),
        forall|j: int| 0 <= j < net.config.hidden1 ==> (#[trigger] x.white_pre@[j]) <= 0 && x.black_pre@[j] <= 0,
        call_ensures(dense_inputs, (&b, &race, net.config.dense_size), d),
        call_ensures(SparseNNUE::evaluate, (&net, &b, &x, &race), p),
        0 <= n < p.1@.len(),
    ensures
        p.1@[n] == over(
            |k: int|
                d@[k] * net.fc2_weight_q@[(p.0 * net.config.hidden2 + n) * net.fc2_in_pad + 2 * net.config.hidden1 + k],
            net.config.dense_size as nat,
        ),
{
    let h = net.config.hidden1 as int;
    let w = net.fc2_weight_q@;
    let at = (p.0 * net.config.hidden2 + n) * net.fc2_in_pad;
    let a = net.input_of(b, x);
    let f = |k: int| d@[k] * w[at + 2 * h + k];
    lemma_sizes(net.config);
    assert(p.1@[n] == net.exact_sum(b, x, n));
    assert forall|k: int| 0 <= k < a.len() implies a[k] == (if 2 * h <= k < 2 * h + net.config.dense_size {
        d@[k - 2 * h]
    } else {
        0i16
    }) by {
        if k < h {
            assert(x.white_pre@[k] <= 0);
        } else if k < 2 * h {
            assert(x.white_pre@[k - h] <= 0);
        } else if k < 2 * h + net.config.dense_size {
            assert(d@[k - 2 * h] == in_128ths(dense_num(b, k - 2 * h), DENSE_DEN@[k - 2 * h] as int));
        }
    }
    lemma_tail(a, d@, w, at, h, net.config.dense_size as nat, f, net.fc2_in_pad as nat);
}

proof fn lemma_tail(a: Seq<i16>, d: Seq<i16>, w: Seq<i16>, at: int, h: int, size: nat, f: spec_fn(int) -> int, n: nat)
    requires
        h >= 0,
        n <= a.len(),
        forall|k: int| 0 <= k < a.len() ==> #[trigger] a[k] == (if 2 * h <= k < 2 * h + size {
            d[k - 2 * h]
        } else {
            0i16
        }),
        forall|k: int| 0 <= k < size ==> #[trigger] f(k) == d[k] * w[at + 2 * h + k],
    ensures
        dot_below(a, w, at, n) == over(
            f,
            if n <= 2 * h {
                0
            } else if n - 2 * h < size {
                (n - 2 * h) as nat
            } else {
                size
            },
        ),
    decreases n,
{
    if n > 0 {
        lemma_tail(a, d, w, at, h, size, f, (n - 1) as nat);
        let k = n - 1;
        assert(a[k] == (if 2 * h <= k < 2 * h + size {
            d[k - 2 * h]
        } else {
            0i16
        }));
        if 2 * h <= k < 2 * h + size {
            assert(f(k - 2 * h) == d[k - 2 * h] * w[at + 2 * h + (k - 2 * h)]);
        } else {
            assert(a[k] * w[at + k] == 0);
        }
    }
}

/// What a network says is its output, held within seven hundred million.
pub proof fn law_network_scores_are_held<L: OutputLayer>(e: BitBoardEngine<L>, net: SparseNNUE, b: BitBoard, r: int)
    requires
        e.network_says(net, b, r),
    ensures
        exists|head: usize, sums: Vec<i32>, cp: i32|
            {
                &&& #[trigger] call_ensures(L::centipawns, (&e.output, head, &sums), cp)
                &&& -700_000_000 <= cp <= 700_000_000 ==> r == cp
                &&& cp > 700_000_000 ==> r == 700_000_000
                &&& cp < -700_000_000 ==> r == -700_000_000
            },
{
}

proof fn lemma_colex_order(a: u64, b: u64, n: nat, s: int)
    requires
        n <= 64,
        0 <= s < n,
        count_below(a, n) == count_below(b, n),
        on(b, s),
        !on(a, s),
        forall|t: int| s < t < n ==> on(a, t) == on(b, t),
    ensures
        colex(a, n) < colex(b, n),
    decreases n,
{
    let p = (n - 1) as nat;
    if s == p {
        lemma_colex_bound(a, p);
    } else {
        assert(on(a, p as int) == on(b, p as int));
        lemma_colex_order(a, b, p, s);
    }
}

/// Sets of barrels are numbered from none on: fewer barrels come first, and of equally
/// many the set without the last square that the two do not share. All of up to four
/// barrels have numbers below 31931.
#[verifier::spinoff_prover]
pub proof fn law_sets_are_numbered_in_order(c: ConfigSpace, a: u64, b: u64, i: u64, j: u64, s: int)
    requires
        c.wf(),
        config_ok(c.player, c.rem as nat, a),
        config_ok(c.player, c.rem as nat, b),
        call_ensures(ConfigSpace::rank, (&c, a), Some(i)),
        call_ensures(ConfigSpace::rank, (&c, b), Some(j)),
    ensures
        i < 31931,
        popcount(a) < popcount(b) ==> i < j,
        popcount(a) == popcount(b) && 0 <= s < 36 && on(b, s) && !on(a, s) && (forall|t: int|
            s < t < 36 ==> on(a, t) == on(b, t)) ==> i < j,
{
    let p = c.player;
    lemma_rank_bound(p, c.rem as nat, a);
    lemma_rank_bound(p, c.rem as nat, b);
    lemma_offsets();
    lemma_offset_monotone((c.rem + 1) as nat, 5);
    if popcount(a) < popcount(b) {
        lemma_offset_monotone(popcount(a) + 1, popcount(b));
    } else if popcount(a) == popcount(b) && 0 <= s < 36 && on(b, s) && !on(a, s) && (forall|t: int|
        s < t < 36 ==> on(a, t) == on(b, t)) {
        lemma_popcount_shifted(p, a);
        lemma_popcount_shifted(p, b);
        let u = s - base_of(p);
        assert(allowed(p, s));
        lemma_shifted(p, a, u);
        lemma_shifted(p, b, u);
        assert forall|t: int| u < t < 30 implies on(shifted(p, a), t) == on(shifted(p, b), t) by {
            lemma_shifted(p, a, t);
            lemma_shifted(p, b, t);
            assert(on(a, t + base_of(p)) == on(b, t + base_of(p)));
        }
        lemma_colex_order(shifted(p, a), shifted(p, b), 30, u);
    }
}

} // verus!
