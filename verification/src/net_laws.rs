//! What the layers of a network make of a position: which features pieces are,
//! what the first layer adds up, and what it passes on.
use vstd::prelude::*;
use crate::accumulator::DualAccumulator;
use crate::bitboard::BitBoard;
use crate::bits::{lemma_lowest, members_from, on};
use crate::board::{Cell, Player};
use crate::features::{first_member, kind_features, seen, FeatureSet, NnueConfig};
use crate::incremental::law_features_distinct;
use crate::network::{add_all, dot_below, SparseNNUE};
use crate::race::RaceTable;
use crate::rows::{decode_sparse_batch, features_before, listed, SparseBatch};
use crate::rules::{barrel_of, pail_of};

verus! {

/// Two accumulators differ at most where both are not above zero.
pub open spec fn differ_below_zero(x: DualAccumulator, y: DualAccumulator, h: int) -> bool {
    forall|j: int|
        0 <= j < h ==> ((#[trigger] x.white_pre@[j]) == y.white_pre@[j] || x.white_pre@[j] <= 0 && y.white_pre@[j] <= 0) && (
        x.black_pre@[j] == y.black_pre@[j] || x.black_pre@[j] <= 0 && y.black_pre@[j] <= 0)
}

/// A neuron of the first layer that is off adds nothing: sums at or below zero are
/// all alike to the second layer.
#[verifier::spinoff_prover]
pub proof fn law_neurons_that_are_off_add_nothing(
    net: SparseNNUE,
    bb: BitBoard,
    race: RaceTable,
    x: DualAccumulator,
    y: DualAccumulator,
    p: (usize, Vec<i32>),
    q: (usize, Vec<i32>),
)
    requires
        differ_below_zero(x, y, net.config.hidden1 as int),
        call_ensures(SparseNNUE::evaluate, (&net, &bb, &x, &race), p),
        call_ensures(SparseNNUE::evaluate, (&net, &bb, &y, &race), q),
    ensures
        p.0 == q.0,
        p.1@ == q.1@,
{
    let h = net.config.hidden1 as int;
    let a = net.input_of(bb, x);
    let b = net.input_of(bb, y);
    assert forall|k: int| 0 <= k < a.len() implies a[k] == b[k] by {
        if k < h {
            assert(x.white_pre@[k] == y.white_pre@[k] || x.white_pre@[k] <= 0 && y.white_pre@[k] <= 0);
        } else if k < 2 * h {
            let j = k - h;
            assert(x.white_pre@[j] == y.white_pre@[j] || x.white_pre@[j] <= 0 && y.white_pre@[j] <= 0);
        }
    }
    assert(a =~= b);
    assert forall|n: int| 0 <= n < p.1@.len() implies p.1@[n] == q.1@[n] by {
        assert(p.1@[n] == net.sum_at(bb, x, n));
        assert(q.1@[n] == net.sum_at(bb, y, n));
    }
    assert(p.1@ =~= q.1@);
}

/// Sums beyond 3000 are all alike to the second layer too.
#[verifier::spinoff_prover]
pub proof fn law_neurons_saturate(
    net: SparseNNUE,
    bb: BitBoard,
    race: RaceTable,
    x: DualAccumulator,
    y: DualAccumulator,
    p: (usize, Vec<i32>),
    q: (usize, Vec<i32>),
)
    requires
        forall|j: int|
            0 <= j < net.config.hidden1 ==> ((#[trigger] x.white_pre@[j]) == y.white_pre@[j] || x.white_pre@[j] >= 3000
                && y.white_pre@[j] >= 3000) && (x.black_pre@[j] == y.black_pre@[j] || x.black_pre@[j] >= 3000
                && y.black_pre@[j] >= 3000),
        call_ensures(SparseNNUE::evaluate, (&net, &bb, &x, &race), p),
        call_ensures(SparseNNUE::evaluate, (&net, &bb, &y, &race), q),
    ensures
        p.1@ == q.1@,
{
    let h = net.config.hidden1 as int;
    let a = net.input_of(bb, x);
    let b = net.input_of(bb, y);
    assert forall|k: int| 0 <= k < a.len() implies a[k] == b[k] by {
        if k < h {
            assert(x.white_pre@[k] == y.white_pre@[k] || x.white_pre@[k] >= 3000 && y.white_pre@[k] >= 3000);
        } else if k < 2 * h {
            let j = k - h;
            assert(x.white_pre@[j] == y.white_pre@[j] || x.white_pre@[j] >= 3000 && y.white_pre@[j] >= 3000);
        }
    }
    assert(a =~= b);
    assert forall|n: int| 0 <= n < p.1@.len() implies p.1@[n] == q.1@[n] by {
        assert(p.1@[n] == net.sum_at(bb, x, n));
        assert(q.1@[n] == net.sum_at(bb, y, n));
    }
    assert(p.1@ =~= q.1@);
}

/// One input changes, and the sum changes by that times its weight.
proof fn lemma_one_input(a: Seq<i16>, b: Seq<i16>, w: Seq<i16>, at: int, n: nat, k: int)
    requires
        0 <= k,
        forall|i: int| 0 <= i < n && i != k ==> a[i] == b[i],
    ensures
        dot_below(b, w, at, n) - dot_below(a, w, at, n) == if k < n {
            (b[k] - a[k]) * w[at + k]
        } else {
            0
        },
    decreases n,
{
    if n > 0 {
        lemma_one_input(a, b, w, at, (n - 1) as nat, k);
        if k == n - 1 {
            let x = a[k] as int;
            let y = b[k] as int;
            let z = w[at + k] as int;
            assert(y * z - x * z == (y - x) * z) by (nonlinear_arith);
        }
    }
}

/// Between 0 and 3000 a neuron passes its sum on: raising the sum of white's
/// neuron `j` raises every sum of the second layer by as much times the weight
/// between them in the position's head; the same of black's, whose weights follow
/// white's.
#[verifier::spinoff_prover]
pub proof fn law_neurons_pass_their_sums_on(
    net: SparseNNUE,
    bb: BitBoard,
    race: RaceTable,
    x: DualAccumulator,
    y: DualAccumulator,
    p: (usize, Vec<i32>),
    q: (usize, Vec<i32>),
    white: bool,
    j: int,
    n: int,
)
    requires
        net.wf(),
        net.sums_fit(),
        0 <= j < net.config.hidden1,
        0 <= n < net.config.hidden2,
        forall|i: int|
            0 <= i < net.config.hidden1 && !(white && i == j) ==> (#[trigger] x.white_pre@[i]) == y.white_pre@[i],
        forall|i: int|
            0 <= i < net.config.hidden1 && !(!white && i == j) ==> (#[trigger] x.black_pre@[i]) == y.black_pre@[i],
        white ==> 0 <= x.white_pre@[j] <= 3000 && 0 <= y.white_pre@[j] <= 3000,
        !white ==> 0 <= x.black_pre@[j] <= 3000 && 0 <= y.black_pre@[j] <= 3000,
        call_ensures(SparseNNUE::evaluate, (&net, &bb, &x, &race), p),
        call_ensures(SparseNNUE::evaluate, (&net, &bb, &y, &race), q),
    ensures
        q.1@[n] - p.1@[n] == if white {
            (y.white_pre@[j] - x.white_pre@[j]) * net.fc2_weight_q@[(p.0 * net.config.hidden2 + n) * net.fc2_in_pad + j]
        } else {
            (y.black_pre@[j] - x.black_pre@[j]) * net.fc2_weight_q@[(p.0 * net.config.hidden2 + n) * net.fc2_in_pad
                + net.config.hidden1 + j]
        },
{
    let h = net.config.hidden1 as int;
    crate::network::lemma_sizes(net.config);
    let a = net.input_of(bb, x);
    let b = net.input_of(bb, y);
    let k = if white {
        j
    } else {
        h + j
    };
    assert(k < net.fc2_in_pad);
    assert forall|i: int| 0 <= i < a.len() && i != k implies a[i] == b[i] by {
        if i < h {
            assert(x.white_pre@[i] == y.white_pre@[i]);
        } else if i < 2 * h {
            assert(x.black_pre@[i - h] == y.black_pre@[i - h]);
        }
    }
    let at = (net.head_of(bb) * net.config.hidden2 + n) * net.fc2_in_pad;
    lemma_one_input(a, b, net.fc2_weight_q@, at, net.fc2_in_pad as nat, k);
    assert(p.1@[n] == net.exact_sum(bb, x, n));
    assert(q.1@[n] == net.exact_sum(bb, y, n));
}

/// With every neuron off and no dense inputs all sums of the second layer are
/// zero.
#[verifier::spinoff_prover]
pub proof fn law_silent_networks_sum_to_zero(
    net: SparseNNUE,
    bb: BitBoard,
    race: RaceTable,
    x: DualAccumulator,
    p: (usize, Vec<i32>),
    n: int,
)
    requires
        net.wf(),
        net.config.dense_size == 0,
        forall|j: int| 0 <= j < net.config.hidden1 ==> (#[trigger] x.white_pre@[j]) <= 0 && x.black_pre@[j] <= 0,
        call_ensures(SparseNNUE::evaluate, (&net, &bb, &x, &race), p),
        0 <= n < p.1@.len(),
    ensures
        p.1@[n] == 0,
{
    let h = net.config.hidden1 as int;
    crate::network::lemma_sizes(net.config);
    let a = net.input_of(bb, x);
    assert forall|k: int| 0 <= k < a.len() implies a[k] == 0 by {
        if k < h {
            assert(x.white_pre@[k] <= 0);
        } else if k < 2 * h {
            assert(x.white_pre@[k - h] <= 0);
        }
    }
    let at = (net.head_of(bb) * net.config.hidden2 + n) * net.fc2_in_pad;
    lemma_zero_input(a, net.fc2_weight_q@, at, net.fc2_in_pad as nat);
    assert(p.1@[n] == net.sum_at(bb, x, n));
    crate::simd::lemma_wrap32_small(0);
}

proof fn lemma_zero_input(a: Seq<i16>, w: Seq<i16>, at: int, n: nat)
    requires
        n <= a.len(),
        forall|k: int| 0 <= k < a.len() ==> a[k] == 0,
    ensures
        dot_below(a, w, at, n) == 0,
    decreases n,
{
    if n > 0 {
        lemma_zero_input(a, w, at, (n - 1) as nat);
    }
}

/// With one head per pair of scores positions share a head exactly if their scores
/// are the same, and without there is one head.
pub proof fn law_heads_tell_scores(
    net: SparseNNUE,
    race: RaceTable,
    b: BitBoard,
    c: BitBoard,
    x: DualAccumulator,
    y: DualAccumulator,
    p: (usize, Vec<i32>),
    q: (usize, Vec<i32>),
)
    requires
        b.white_scored <= 4,
        b.black_scored <= 4,
        c.white_scored <= 4,
        c.black_scored <= 4,
        call_ensures(SparseNNUE::evaluate, (&net, &b, &x, &race), p),
        call_ensures(SparseNNUE::evaluate, (&net, &c, &y, &race), q),
    ensures
        net.config.output_buckets >= 25 ==> (p.0 == q.0 <==> b.white_scored == c.white_scored && b.black_scored
            == c.black_scored),
        net.config.output_buckets < 25 ==> p.0 == q.0,
{
}

/// A mask lists its members.
proof fn lemma_lists_members(m: u64, from: int, s: int)
    requires
        0 <= from,
    ensures
        members_from(m, from).contains(s) <==> from <= s < 64 && on(m, s),
    decreases 64 - from,
{
    if from < 64 {
        lemma_lists_members(m, from + 1, s);
        let all = members_from(m, from);
        let rest = members_from(m, from + 1);
        if on(m, from) {
            if all.contains(s) {
                let i = choose|i: int| 0 <= i < all.len() && all[i] == s;
                if i > 0 {
                    assert(rest[i - 1] == s);
                }
            }
            if s == from {
                assert(all[0] == s);
            }
            if rest.contains(s) {
                let i = choose|i: int| 0 <= i < rest.len() && rest[i] == s;
                assert(all[i + 1] == s);
            }
        }
    }
}

/// A kind lists the squares of a list.
proof fn lemma_lists_kind(squares: Seq<int>, flipped: bool, scale: int, base: int, s: int)
    requires
        scale == 3 || scale == 4,
        forall|i: int| 0 <= i < squares.len() ==> 0 <= #[trigger] squares[i] < 36,
        0 <= s < 36,
    ensures
        squares.contains(s) ==> kind_features(squares, flipped, scale, base).contains(base + seen(flipped, s) * scale),
        forall|x: int| #[trigger]
            kind_features(squares, flipped, scale, base).contains(x) ==> (x - base) % scale == 0 && 0 <= (x - base) / scale
                < 36,
        kind_features(squares, flipped, scale, base).contains(base + seen(flipped, s) * scale) ==> squares.contains(s),
{
    let all = kind_features(squares, flipped, scale, base);
    assert forall|t: int| 0 <= t < 36 implies 0 <= #[trigger] seen(flipped, t) < 36 && (seen(flipped, t) == seen(flipped, s)
        ==> t == s) by {
        crate::mirror::lemma_flip(t);
        crate::mirror::lemma_flip(s);
    }
    if squares.contains(s) {
        let i = choose|i: int| 0 <= i < squares.len() && squares[i] == s;
        assert(all[i] == base + seen(flipped, s) * scale);
    }
    assert forall|x: int| #[trigger] all.contains(x) implies (x - base) % scale == 0 && 0 <= (x - base) / scale < 36 by {
        let i = choose|i: int| 0 <= i < all.len() && all[i] == x;
        let k = seen(flipped, squares[i]);
        assert((k * scale) % scale == 0 && (k * scale) / scale == k) by (nonlinear_arith)
            requires
                scale == 3 || scale == 4,
        ;
    }
    if all.contains(base + seen(flipped, s) * scale) {
        let i = choose|i: int| 0 <= i < all.len() && all[i] == base + seen(flipped, s) * scale;
        let k = seen(flipped, squares[i]);
        let l = seen(flipped, s);
        assert(k == l) by (nonlinear_arith)
            requires
                k * scale == l * scale,
                scale == 3 || scale == 4,
        ;
        assert(squares[i] == s);
    }
}

/// In the plain set, seen from white, the features are the pieces: white barrels,
/// black barrels, the black pail and the white pail, in this order on each square.
/// Black sees its own barrels first, and the rows turned around if the network
/// mirrors.
#[verifier::spinoff_prover]
pub proof fn law_plain_features_are_pieces(config: NnueConfig, bb: BitBoard, s: int)
    requires
        bb.wf(),
        config.feature_set == FeatureSet::Plain,
        0 <= s < 36,
    ensures
        config.features_of(bb, Player::White).contains(4 * s) <==> bb@.cells[s] == Cell::WhiteBarrel,
        config.features_of(bb, Player::White).contains(4 * s + 1) <==> bb@.cells[s] == Cell::BlackBarrel,
        config.features_of(bb, Player::White).contains(4 * s + 2) <==> bb@.cells[s] == Cell::BlackPail,
        config.features_of(bb, Player::White).contains(4 * s + 3) <==> bb@.cells[s] == Cell::WhitePail,
        ({
            let t = if config.mirror_black {
                6 * (5 - s / 6) + s % 6
            } else {
                s
            };
            &&& config.features_of(bb, Player::Black).contains(4 * t) <==> bb@.cells[s] == Cell::BlackBarrel
            &&& config.features_of(bb, Player::Black).contains(4 * t + 1) <==> bb@.cells[s] == Cell::WhiteBarrel
            &&& config.features_of(bb, Player::Black).contains(4 * t + 2) <==> bb@.cells[s] == Cell::WhitePail
            &&& config.features_of(bb, Player::Black).contains(4 * t + 3) <==> bb@.cells[s] == Cell::BlackPail
        }),
{
    lemma_plain_side(config, bb, Player::White, s);
    lemma_plain_side(config, bb, Player::Black, s);
}

#[verifier::spinoff_prover]
proof fn lemma_plain_side(config: NnueConfig, bb: BitBoard, p: Player, s: int)
    requires
        bb.wf(),
        config.feature_set == FeatureSet::Plain,
        0 <= s < 36,
    ensures
        ({
            let t = seen(config.flips(p), s);
            &&& config.features_of(bb, p).contains(4 * t) <==> bb@.cells[s] == barrel_of(p)
            &&& config.features_of(bb, p).contains(4 * t + 1) <==> bb@.cells[s] == barrel_of(p.opponent())
            &&& config.features_of(bb, p).contains(4 * t + 2) <==> bb@.cells[s] == pail_of(p.opponent())
            &&& config.features_of(bb, p).contains(4 * t + 3) <==> bb@.cells[s] == pail_of(p)
        }),
{
    let f = config.flips(p);
    let t = seen(f, s);
    lemma_lists_side(bb, p, s);
    lemma_lists_side(bb, p.opponent(), s);
    let own = members_from(bb.barrels_of(p), 0);
    let enemy = members_from(bb.barrels_of(p.opponent()), 0);
    let ep = first_member(bb.pail_mask_of(p.opponent()));
    let op = first_member(bb.pail_mask_of(p));
    let a = kind_features(own, f, 4, 0);
    let b = kind_features(enemy, f, 4, 1);
    let c = kind_features(ep, f, 4, 2);
    let d = kind_features(op, f, 4, 3);
    assert(config.features_of(bb, p) == a + b + c + d);
    lemma_one_kind(own, f, 0, s);
    lemma_one_kind(enemy, f, 1, s);
    lemma_one_kind(ep, f, 2, s);
    lemma_one_kind(op, f, 3, s);
    lemma_in_four(a, b, c, d, 4 * t);
    lemma_in_four(a, b, c, d, 4 * t + 1);
    lemma_in_four(a, b, c, d, 4 * t + 2);
    lemma_in_four(a, b, c, d, 4 * t + 3);
}

/// Of the four numbers of a square only one can be of a kind.
#[verifier::spinoff_prover]
proof fn lemma_one_kind(squares: Seq<int>, f: bool, kind: int, s: int)
    requires
        0 <= kind < 4,
        forall|i: int| 0 <= i < squares.len() ==> 0 <= #[trigger] squares[i] < 36,
        0 <= s < 36,
    ensures
        ({
            let all = kind_features(squares, f, 4, kind);
            let t = seen(f, s);
            &&& all.contains(4 * t) <==> kind == 0 && squares.contains(s)
            &&& all.contains(4 * t + 1) <==> kind == 1 && squares.contains(s)
            &&& all.contains(4 * t + 2) <==> kind == 2 && squares.contains(s)
            &&& all.contains(4 * t + 3) <==> kind == 3 && squares.contains(s)
        }),
{
    lemma_lists_kind(squares, f, 4, kind, s);
    let t = seen(f, s);
    let all = kind_features(squares, f, 4, kind);
    assert(all.contains(4 * t) ==> (4 * t - kind) % 4 == 0);
    assert(all.contains(4 * t + 1) ==> (4 * t + 1 - kind) % 4 == 0);
    assert(all.contains(4 * t + 2) ==> (4 * t + 2 - kind) % 4 == 0);
    assert(all.contains(4 * t + 3) ==> (4 * t + 3 - kind) % 4 == 0);
    assert(kind + t * 4 == 4 * t + kind);
}

proof fn lemma_in_four(a: Seq<int>, b: Seq<int>, c: Seq<int>, d: Seq<int>, x: int)
    ensures
        (a + b + c + d).contains(x) <==> a.contains(x) || b.contains(x) || c.contains(x) || d.contains(x),
{
    let all = a + b + c + d;
    if a.contains(x) {
        let i = choose|i: int| 0 <= i < a.len() && a[i] == x;
        assert(all[i] == x);
    }
    if b.contains(x) {
        let i = choose|i: int| 0 <= i < b.len() && b[i] == x;
        assert(all[a.len() + i] == x);
    }
    if c.contains(x) {
        let i = choose|i: int| 0 <= i < c.len() && c[i] == x;
        assert(all[a.len() + b.len() + i] == x);
    }
    if d.contains(x) {
        let i = choose|i: int| 0 <= i < d.len() && d[i] == x;
        assert(all[a.len() + b.len() + c.len() + i] == x);
    }
    if all.contains(x) {
        let i = choose|i: int| 0 <= i < all.len() && all[i] == x;
        if i < a.len() {
            assert(a[i] == x);
        } else if i < a.len() + b.len() {
            assert(b[i - a.len()] == x);
        } else if i < a.len() + b.len() + c.len() {
            assert(c[i - a.len() - b.len()] == x);
        } else {
            assert(d[i - a.len() - b.len() - c.len()] == x);
        }
    }
}

/// The lists of a side are its pieces.
#[verifier::spinoff_prover]
pub(crate) proof fn lemma_lists_side(bb: BitBoard, p: Player, s: int)
    requires
        bb.wf(),
        0 <= s < 36,
    ensures
        members_from(bb.barrels_of(p), 0).contains(s) <==> bb@.cells[s] == barrel_of(p),
        first_member(bb.pail_mask_of(p)).contains(s) <==> bb@.cells[s] == pail_of(p),
        forall|i: int|
            0 <= i < members_from(bb.barrels_of(p), 0).len() ==> 0 <= #[trigger] members_from(bb.barrels_of(p), 0)[i] < 36,
        forall|i: int|
            0 <= i < first_member(bb.pail_mask_of(p)).len() ==> 0 <= #[trigger] first_member(bb.pail_mask_of(p))[i] < 36,
{
    let m = bb.barrels_of(p);
    let q = bb.pail_mask_of(p);
    lemma_lists_members(m, 0, s);
    bb.lemma_square(s);
    assert(bb@.cells[s] == bb.cell_at(s));
    assert(on(m, s) == (bb.cell_at(s) == barrel_of(p)));
    assert(on(q, s) == (bb.cell_at(s) == pail_of(p)));
    assert forall|i: int| 0 <= i < members_from(m, 0).len() implies 0 <= #[trigger] members_from(m, 0)[i] < 36 by {
        let t = members_from(m, 0)[i];
        lemma_lists_members(m, 0, t);
        assert(members_from(m, 0).contains(t));
        bb.lemma_square(t);
        assert(on(m, t) == (bb.cell_at(t) == barrel_of(p)));
    }
    if q != 0 {
        lemma_lowest(q);
        let t = vstd::std_specs::bits::u64_trailing_zeros(q) as int;
        bb.lemma_square(t);
        assert(on(q, t) == (bb.cell_at(t) == pail_of(p)));
        bb.lemma_square(s);
        assert(first_member(q)[0] == t);
        match p {
            Player::White => {
                crate::phase::lemma_pail_number(bb.white_pail);
            },
            Player::Black => {
                crate::phase::lemma_pail_number(bb.black_pail);
            },
        }
    } else {
        crate::bits::lemma_empty(q);
    }
}

/// In the set with one bucket per place of the own pail, seen from white, the
/// features are the pieces besides that pail: white barrels, black barrels and the
/// black pail in this order on each square, in the bucket of the white pail's
/// square, or the last one without it.
#[verifier::spinoff_prover]
pub proof fn law_halfpail_features_are_pieces(config: NnueConfig, bb: BitBoard, pail: int, s: int)
    requires
        bb.wf(),
        config.feature_set == FeatureSet::HalfPail,
        0 <= s < 36,
        if pail == 36 {
            bb.white_pail == 0
        } else {
            0 <= pail < 36 && bb@.cells[pail] == Cell::WhitePail
        },
    ensures
        config.features_of(bb, Player::White).contains(108 * pail + 3 * s) <==> bb@.cells[s] == Cell::WhiteBarrel,
        config.features_of(bb, Player::White).contains(108 * pail + 3 * s + 1) <==> bb@.cells[s] == Cell::BlackBarrel,
        config.features_of(bb, Player::White).contains(108 * pail + 3 * s + 2) <==> bb@.cells[s] == Cell::BlackPail,
{
    let p = Player::White;
    if pail < 36 {
        lemma_lists_side(bb, p, pail);
        let q = bb.white_pail;
        assert(first_member(q).contains(pail));
        assert(first_member(q)[0] == pail);
    }
    assert(config.bucket_of(bb, p) == pail);
    lemma_lists_side(bb, p, s);
    lemma_lists_side(bb, p.opponent(), s);
    let own = members_from(bb.barrels_of(p), 0);
    let enemy = members_from(bb.barrels_of(p.opponent()), 0);
    let ep = first_member(bb.pail_mask_of(p.opponent()));
    let base = 108 * pail;
    lemma_lists_kind(own, false, 3, base, s);
    lemma_lists_kind(enemy, false, 3, base + 1, s);
    lemma_lists_kind(ep, false, 3, base + 2, s);
    let a = kind_features(own, false, 3, base);
    let b = kind_features(enemy, false, 3, base + 1);
    let c = kind_features(ep, false, 3, base + 2);
    let d = Seq::<int>::empty();
    assert(config.features_of(bb, p) =~= a + b + c + d);
    lemma_in_four(a, b, c, d, base + 3 * s);
    lemma_in_four(a, b, c, d, base + 3 * s + 1);
    lemma_in_four(a, b, c, d, base + 3 * s + 2);
}

/// A sum of the first layer from scratch is the bias and the weights of the active
/// features, if these are small: each piece adds its weight.
pub proof fn law_pieces_add_their_weights(net: SparseNNUE, bb: BitBoard, p: Player, j: int)
    requires
        net.wf(),
        bb.wf(),
        NnueConfig::fits(bb),
        0 <= j < net.config.hidden1,
        -8_000 <= net.fc1_bias_q@[j] <= 8_000,
        forall|f: int| 0 <= f < net.config.feature_set.num_features() ==> -2_000 <= #[trigger] net.weight(f, j) <= 2_000,
    ensures
        net.scratch(bb, p, j) == net.fc1_bias_q@[j] + added(net, net.config.features_of(bb, p), j),
{
    let fs = net.config.features_of(bb, p);
    law_features_distinct(net.config, bb, p);
    crate::incremental::lemma_feature_count(net.config, bb, p);
    lemma_added(net, fs, j, net.fc1_bias_q@[j]);
}

/// The weights of some features together.
pub open spec fn added(net: SparseNNUE, fs: Seq<int>, j: int) -> int
    decreases fs.len(),
{
    if fs.len() == 0 {
        0
    } else {
        added(net, fs.drop_last(), j) + net.fc1_weight_q@[fs.last() * net.config.hidden1 + j]
    }
}

proof fn lemma_added(net: SparseNNUE, fs: Seq<int>, j: int, x: i16)
    requires
        fs.len() <= 12,
        -8_000 <= x <= 8_000,
        forall|i: int| 0 <= i < fs.len() ==> -2_000 <= net.weight(#[trigger] fs[i], j) <= 2_000,
    ensures
        add_all(net, x, fs, j) == x + added(net, fs, j),
        -2_000 * fs.len() <= added(net, fs, j) <= 2_000 * fs.len(),
    decreases fs.len(),
{
    if fs.len() > 0 {
        let rest = fs.drop_last();
        assert forall|i: int| 0 <= i < rest.len() implies -2_000 <= net.weight(#[trigger] rest[i], j) <= 2_000 by {
            assert(rest[i] == fs[i]);
        }
        lemma_added(net, rest, j, x);
        assert(fs.last() == fs[fs.len() - 1]);
    }
}

/// A batch lists the features of its boards one board after the other: a board's
/// begin at its offset and end where the next board's begin.
#[verifier::spinoff_prover]
pub proof fn law_batches_list_features(boards: Vec<BitBoard>, config: NnueConfig, r: SparseBatch, p: Player, i: int, k: int)
    requires
        call_ensures(decode_sparse_batch, (&boards, &config), r),
        0 <= i < boards@.len(),
    ensures
        ({
            let (indices, offsets) = if p == Player::White {
                (r.white_indices@, r.white_offsets@)
            } else {
                (r.black_indices@, r.black_offsets@)
            };
            let fs = config.features_of(boards@[i], p);
            &&& offsets.len() == boards@.len()
            &&& offsets[0] == 0
            &&& i + 1 < boards@.len() ==> offsets[i + 1] == offsets[i] + fs.len()
            &&& i + 1 == boards@.len() ==> indices.len() == offsets[i] + fs.len()
            &&& 0 <= k < fs.len() ==> indices[offsets[i] + k] == fs[k]
        }),
        r.buckets@.len() == boards@.len(),
        config.output_buckets >= 25 ==> r.buckets@[i] == 5 * boards@[i].white_scored + boards@[i].black_scored,
{
    let n = boards@.len() as int;
    let all = features_before(config, boards@, p, n);
    let (indices, offsets) = if p == Player::White {
        (r.white_indices@, r.white_offsets@)
    } else {
        (r.black_indices@, r.black_offsets@)
    };
    assert(listed(config, boards@, p, n, indices, offsets));
    let fs = config.features_of(boards@[i], p);
    let before = features_before(config, boards@, p, i);
    let upto = features_before(config, boards@, p, i + 1);
    assert(upto == before + fs);
    assert(offsets[0] == features_before(config, boards@, p, 0).len());
    assert(offsets[i] == before.len());
    if i + 1 < n {
        assert(offsets[i + 1] == upto.len());
    }
    lemma_features_go_on(config, boards@, p, i + 1, n);
    if 0 <= k < fs.len() {
        let at = before.len() + k;
        assert(all[at] == upto[at]);
        assert(indices[at] == all[at]);
    }
}

proof fn lemma_features_go_on(config: NnueConfig, boards: Seq<BitBoard>, p: Player, i: int, n: int)
    requires
        0 <= i <= n,
    ensures
        features_before(config, boards, p, i).len() <= features_before(config, boards, p, n).len(),
        forall|k: int|
            0 <= k < features_before(config, boards, p, i).len() ==> #[trigger] features_before(config, boards, p, n)[k]
                == features_before(config, boards, p, i)[k],
    decreases n - i,
{
    if i < n {
        lemma_features_go_on(config, boards, p, i, n - 1);
    }
}

} // verus!
