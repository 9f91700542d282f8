//! Incremental first-layer sums equal sums from scratch.
use vstd::prelude::*;
use crate::bitboard::BitBoard;
use crate::bits::{members_from, on};
use crate::board::Player;
use crate::features::{first_member, kind_features, lemma_member, seen, FeatureSet, NnueConfig};
use crate::mirror::lemma_flip;
use crate::network::{add_all, sub_all, without, SparseNNUE};
use crate::squares::on_board;

verus! {

/// The exact sum of the features' weights for neuron `j`.
pub open spec fn weight_sum(net: SparseNNUE, fs: Seq<int>, j: int) -> int
    decreases fs.len(),
{
    if fs.len() == 0 {
        0
    } else {
        weight_sum(net, fs.drop_last(), j) + net.weight(fs.last(), j)
    }
}

pub open spec fn in16(x: int) -> bool {
    -32768 <= x <= 32767
}

/// Adding the features one by one to `x` never saturates.
pub open spec fn room_to_add(net: SparseNNUE, x: int, fs: Seq<int>, j: int) -> bool
    decreases fs.len(),
{
    in16(x + weight_sum(net, fs, j)) && (fs.len() > 0 ==> room_to_add(net, x, fs.drop_last(), j))
}

/// Subtracting the features one by one from `x` never saturates.
pub open spec fn room_to_sub(net: SparseNNUE, x: int, fs: Seq<int>, j: int) -> bool
    decreases fs.len(),
{
    in16(x - weight_sum(net, fs, j)) && (fs.len() > 0 ==> room_to_sub(net, x, fs.drop_last(), j))
}

proof fn lemma_add_exact(net: SparseNNUE, x: i16, fs: Seq<int>, j: int)
    requires
        room_to_add(net, x as int, fs, j),
    ensures
        add_all(net, x, fs, j) == x + weight_sum(net, fs, j),
    decreases fs.len(),
{
    if fs.len() > 0 {
        lemma_add_exact(net, x, fs.drop_last(), j);
    }
}

proof fn lemma_sub_exact(net: SparseNNUE, x: i16, fs: Seq<int>, j: int)
    requires
        room_to_sub(net, x as int, fs, j),
    ensures
        sub_all(net, x, fs, j) == x - weight_sum(net, fs, j),
    decreases fs.len(),
{
    if fs.len() > 0 {
        lemma_sub_exact(net, x, fs.drop_last(), j);
    }
}

/// The weights of the features below `n` that are in the list.
spec fn present_sum(net: SparseNNUE, fs: Seq<int>, j: int, n: nat) -> int
    decreases n,
{
    if n == 0 {
        0
    } else {
        present_sum(net, fs, j, (n - 1) as nat) + if fs.contains(n - 1) {
            net.weight(n - 1, j) as int
        } else {
            0
        }
    }
}

proof fn lemma_present_push(net: SparseNNUE, fs: Seq<int>, x: int, j: int, n: nat)
    requires
        !fs.contains(x),
        0 <= x,
    ensures
        present_sum(net, fs.push(x), j, n) == present_sum(net, fs, j, n) + if x < n { net.weight(x, j) as int } else { 0 },
    decreases n,
{
    if n > 0 {
        lemma_present_push(net, fs, x, j, (n - 1) as nat);
        lemma_push_contains(fs, x, n - 1);
    }
}

proof fn lemma_push_contains(fs: Seq<int>, x: int, y: int)
    ensures
        fs.push(x).contains(y) == (fs.contains(y) || y == x),
{
    let c = fs.push(x);
    assert(c[fs.len() as int] == x);
    if fs.contains(y) {
        let k = choose|k: int| 0 <= k < fs.len() && fs[k] == y;
        assert(c[k] == y);
    }
    if c.contains(y) && y != x {
        let k = choose|k: int| 0 <= k < c.len() && c[k] == y;
        assert(fs[k] == y);
    }
}

/// Without repetition the list's sum is the sum over what it contains.
proof fn lemma_weight_sum_present(net: SparseNNUE, fs: Seq<int>, j: int, n: nat)
    requires
        fs.no_duplicates(),
        forall|i: int| 0 <= i < fs.len() ==> 0 <= #[trigger] fs[i] < n,
    ensures
        weight_sum(net, fs, j) == present_sum(net, fs, j, n),
    decreases fs.len(),
{
    if fs.len() == 0 {
        lemma_present_empty(net, fs, j, n);
    } else {
        let a = fs.drop_last();
        assert(a.push(fs.last()) =~= fs);
        assert(a.no_duplicates());
        assert forall|i: int| 0 <= i < a.len() implies 0 <= #[trigger] a[i] < n by {
            assert(a[i] == fs[i]);
        }
        lemma_weight_sum_present(net, a, j, n);
        assert(!a.contains(fs.last())) by {
            if a.contains(fs.last()) {
                let k = choose|k: int| 0 <= k < a.len() && a[k] == fs.last();
                assert(fs[k] == fs[fs.len() - 1]);
            }
        }
        lemma_present_push(net, a, fs.last(), j, n);
    }
}

proof fn lemma_present_empty(net: SparseNNUE, fs: Seq<int>, j: int, n: nat)
    requires
        fs.len() == 0,
    ensures
        present_sum(net, fs, j, n) == 0,
    decreases n,
{
    if n > 0 {
        lemma_present_empty(net, fs, j, (n - 1) as nat);
    }
}

/// What `without` contains, and that it repeats nothing.
proof fn lemma_without(a: Seq<int>, b: Seq<int>)
    requires
        a.no_duplicates(),
    ensures
        without(a, b).no_duplicates(),
        forall|x: int| #[trigger] without(a, b).contains(x) == (a.contains(x) && !b.contains(x)),
        without(a, b).len() <= a.len(),
    decreases a.len(),
{
    if a.len() > 0 {
        let c = a.drop_last();
        let x = a.last();
        assert(c.push(x) =~= a);
        assert(c.no_duplicates());
        lemma_without(c, b);
        let w = without(c, b);
        assert(!c.contains(x)) by {
            if c.contains(x) {
                let k = choose|k: int| 0 <= k < c.len() && c[k] == x;
                assert(a[k] == a[a.len() - 1]);
            }
        }
        assert forall|y: int| #[trigger] without(a, b).contains(y) == (a.contains(y) && !b.contains(y)) by {
            lemma_push_contains(c, x, y);
            lemma_push_contains(w, x, y);
            assert(w.contains(y) == (c.contains(y) && !b.contains(y)));
        }
        if !b.contains(x) {
            assert(!w.contains(x));
            let r = w.push(x);
            assert forall|i: int, k: int| 0 <= i < r.len() && 0 <= k < r.len() && i != k implies r[i] != r[k] by {
                if i < w.len() && k < w.len() {
                    assert(w[i] != w[k]);
                } else if i < w.len() {
                    assert(w.contains(w[i]));
                } else {
                    assert(w.contains(w[k]));
                }
            }
        }
    }
}

proof fn lemma_present_swap(net: SparseNNUE, a: Seq<int>, b: Seq<int>, j: int, n: nat)
    requires
        a.no_duplicates(),
        b.no_duplicates(),
    ensures
        present_sum(net, a, j, n) - present_sum(net, without(a, b), j, n) + present_sum(net, without(b, a), j, n)
            == present_sum(net, b, j, n),
    decreases n,
{
    if n > 0 {
        lemma_present_swap(net, a, b, j, (n - 1) as nat);
        lemma_without(a, b);
        lemma_without(b, a);
        assert(without(a, b).contains(n - 1) == (a.contains(n - 1) && !b.contains(n - 1)));
        assert(without(b, a).contains(n - 1) == (b.contains(n - 1) && !a.contains(n - 1)));
    }
}

/// Taking away what the new features lack and adding what the old ones lacked
/// leads from one sum to the other.
proof fn lemma_swap_sums(net: SparseNNUE, a: Seq<int>, b: Seq<int>, j: int, n: nat)
    requires
        a.no_duplicates(),
        b.no_duplicates(),
        forall|i: int| 0 <= i < a.len() ==> 0 <= #[trigger] a[i] < n,
        forall|i: int| 0 <= i < b.len() ==> 0 <= #[trigger] b[i] < n,
    ensures
        weight_sum(net, a, j) - weight_sum(net, without(a, b), j) + weight_sum(net, without(b, a), j) == weight_sum(
            net,
            b,
            j,
        ),
{
    lemma_without(a, b);
    lemma_without(b, a);
    let x = without(a, b);
    let y = without(b, a);
    assert forall|i: int| 0 <= i < x.len() implies 0 <= #[trigger] x[i] < n by {
        assert(x.contains(x[i]));
        let k = choose|k: int| 0 <= k < a.len() && a[k] == x[i];
        assert(0 <= a[k] < n);
    }
    assert forall|i: int| 0 <= i < y.len() implies 0 <= #[trigger] y[i] < n by {
        assert(y.contains(y[i]));
        let k = choose|k: int| 0 <= k < b.len() && b[k] == y[i];
        assert(0 <= b[k] < n);
    }
    lemma_weight_sum_present(net, a, j, n);
    lemma_weight_sum_present(net, b, j, n);
    lemma_weight_sum_present(net, x, j, n);
    lemma_weight_sum_present(net, y, j, n);
    lemma_present_swap(net, a, b, j, n);
}

/// No step of an update from `before` to `after`, nor of either sum from
/// scratch, saturates for neuron `j`.
pub open spec fn never_saturates(net: SparseNNUE, before: BitBoard, after: BitBoard, persp: Player, j: int) -> bool {
    let a = net.config.features_of(before, persp);
    let b = net.config.features_of(after, persp);
    let x = net.fc1_bias_q@[j] as int;
    let old_sum = x + weight_sum(net, a, j);
    &&& room_to_add(net, x, a, j)
    &&& room_to_add(net, x, b, j)
    &&& room_to_sub(net, old_sum, without(a, b), j)
    &&& room_to_add(net, old_sum - weight_sum(net, without(a, b), j), without(b, a), j)
}

proof fn lemma_members_distinct(m: u64, from: int)
    requires
        0 <= from,
    ensures
        members_from(m, from).no_duplicates(),
    decreases 64 - from,
{
    if from < 64 {
        lemma_members_distinct(m, from + 1);
        if on(m, from) {
            let rest = members_from(m, from + 1);
            let all = members_from(m, from);
            assert forall|i: int, k: int| 0 <= i < all.len() && 0 <= k < all.len() && i != k implies all[i] != all[k] by {
                if i > 0 {
                    lemma_member(m, from + 1, i - 1);
                    assert(all[i] == rest[i - 1]);
                }
                if k > 0 {
                    lemma_member(m, from + 1, k - 1);
                    assert(all[k] == rest[k - 1]);
                }
            }
        }
    }
}

proof fn lemma_kind_distinct(ms: Seq<int>, f: bool, scale: int, base: int)
    requires
        ms.no_duplicates(),
        forall|i: int| 0 <= i < ms.len() ==> on_board(#[trigger] ms[i]),
        scale == 3 || scale == 4,
    ensures
        kind_features(ms, f, scale, base).no_duplicates(),
        forall|i: int|
            0 <= i < ms.len() ==> (#[trigger] kind_features(ms, f, scale, base)[i] - base) % scale == 0
                && base <= kind_features(ms, f, scale, base)[i] <= base + 35 * scale,
{
    let ks = kind_features(ms, f, scale, base);
    assert forall|i: int| 0 <= i < ms.len() implies (#[trigger] ks[i] - base) % scale == 0 && base <= ks[i] <= base + 35
        * scale by {
        lemma_flip(ms[i]);
        let t = seen(f, ms[i]);
        assert(ks[i] == base + t * scale);
        if scale == 3 {
            assert((t * 3) % 3 == 0);
        } else {
            assert((t * 4) % 4 == 0);
        }
    }
    assert forall|i: int, k: int| 0 <= i < ks.len() && 0 <= k < ks.len() && i != k implies ks[i] != ks[k] by {
        assert(ms[i] != ms[k]);
        lemma_flip(ms[i]);
        lemma_flip(ms[k]);
    }
}

proof fn lemma_concat_distinct(a: Seq<int>, b: Seq<int>)
    requires
        a.no_duplicates(),
        b.no_duplicates(),
        forall|i: int, k: int| 0 <= i < a.len() && 0 <= k < b.len() ==> #[trigger] a[i] != #[trigger] b[k],
    ensures
        (a + b).no_duplicates(),
{
    let c = a + b;
    assert forall|i: int, k: int| 0 <= i < c.len() && 0 <= k < c.len() && i != k implies c[i] != c[k] by {
        if i < a.len() && k < a.len() {
            assert(a[i] != a[k]);
        } else if i >= a.len() && k >= a.len() {
            assert(b[i - a.len()] != b[k - a.len()]);
        } else if i < a.len() {
            assert(a[i] != b[k - a.len()]);
        } else {
            assert(a[k] != b[i - a.len()]);
        }
    }
}

proof fn lemma_side_members(bb: BitBoard, p: Player)
    requires
        bb.inv(),
    ensures
        members_from(bb.barrels_of(p), 0).no_duplicates(),
        forall|i: int| 0 <= i < members_from(bb.barrels_of(p), 0).len() ==> on_board(#[trigger] members_from(bb.barrels_of(p), 0)[i]),
        first_member(bb.pail_mask_of(p)).no_duplicates(),
        forall|i: int| 0 <= i < first_member(bb.pail_mask_of(p)).len() ==> on_board(#[trigger] first_member(bb.pail_mask_of(p))[i]),
{
    let m = bb.barrels_of(p);
    lemma_members_distinct(m, 0);
    assert forall|i: int| 0 <= i < members_from(m, 0).len() implies on_board(#[trigger] members_from(m, 0)[i]) by {
        lemma_member(m, 0, i);
        let s = members_from(m, 0)[i];
        bb.lemma_square(s);
        assert(on(bb.barrels_of(p), s) == (bb.cell_at(s) == crate::rules::barrel_of(p)));
    }
    let q = bb.pail_mask_of(p);
    if q != 0 {
        crate::bits::lemma_lowest(q);
        let s = vstd::std_specs::bits::u64_trailing_zeros(q) as int;
        bb.lemma_square(s);
        assert(on(bb.pail_mask_of(p), s) == (bb.cell_at(s) == crate::rules::pail_of(p)));
    }
}

/// A side's active features are different indices in range.
pub proof fn law_features_distinct(config: NnueConfig, bb: BitBoard, persp: Player)
    requires
        bb.inv(),
    ensures
        config.features_of(bb, persp).no_duplicates(),
        forall|i: int|
            0 <= i < config.features_of(bb, persp).len() ==> 0 <= #[trigger] config.features_of(bb, persp)[i]
                < config.feature_set.num_features(),
{
    lemma_side_members(bb, persp);
    lemma_side_members(bb, persp.opponent());
    let f = config.flips(persp);
    let own = members_from(bb.barrels_of(persp), 0);
    let enemy = members_from(bb.barrels_of(persp.opponent()), 0);
    let ep = first_member(bb.pail_mask_of(persp.opponent()));
    let op = first_member(bb.pail_mask_of(persp));
    let all = config.features_of(bb, persp);
    match config.feature_set {
        FeatureSet::HalfPail => {
            let base = config.bucket_of(bb, persp) * 108;
            if bb.pail_mask_of(persp) != 0 {
                assert(on_board(op[0]));
                lemma_flip(op[0]);
            }
            assert(0 <= base <= 36 * 108);
            let a = kind_features(own, f, 3, base);
            let b = kind_features(enemy, f, 3, base + 1);
            let c = kind_features(ep, f, 3, base + 2);
            lemma_kind_distinct(own, f, 3, base);
            lemma_kind_distinct(enemy, f, 3, base + 1);
            lemma_kind_distinct(ep, f, 3, base + 2);
            assert forall|i: int, k: int| 0 <= i < a.len() && 0 <= k < b.len() implies #[trigger] a[i] != #[trigger] b[k] by {
                assert((a[i] - base) % 3 == 0 && (b[k] - (base + 1)) % 3 == 0);
            }
            lemma_concat_distinct(a, b);
            let ab = a + b;
            assert forall|i: int, k: int| 0 <= i < ab.len() && 0 <= k < c.len() implies #[trigger] ab[i] != #[trigger] c[k] by {
                assert((c[k] - (base + 2)) % 3 == 0);
                if i < a.len() {
                    assert(ab[i] == a[i] && (a[i] - base) % 3 == 0);
                } else {
                    assert(ab[i] == b[i - a.len()] && (b[i - a.len()] - (base + 1)) % 3 == 0);
                }
            }
            lemma_concat_distinct(ab, c);
            assert(all =~= ab + c);
            assert forall|i: int| 0 <= i < all.len() implies 0 <= #[trigger] all[i] < 3996 by {
                if i < a.len() {
                    assert(all[i] == a[i]);
                } else if i < ab.len() {
                    assert(all[i] == b[i - a.len()]);
                } else {
                    assert(all[i] == c[i - ab.len()]);
                }
            }
        },
        FeatureSet::Plain => {
            let a = kind_features(own, f, 4, 0);
            let b = kind_features(enemy, f, 4, 1);
            let c = kind_features(ep, f, 4, 2);
            let d = kind_features(op, f, 4, 3);
            lemma_kind_distinct(own, f, 4, 0);
            lemma_kind_distinct(enemy, f, 4, 1);
            lemma_kind_distinct(ep, f, 4, 2);
            lemma_kind_distinct(op, f, 4, 3);
            assert forall|i: int, k: int| 0 <= i < a.len() && 0 <= k < b.len() implies #[trigger] a[i] != #[trigger] b[k] by {
                assert((a[i] - 0) % 4 == 0 && (b[k] - 1) % 4 == 0);
            }
            lemma_concat_distinct(a, b);
            let ab = a + b;
            assert forall|i: int, k: int| 0 <= i < ab.len() && 0 <= k < c.len() implies #[trigger] ab[i] != #[trigger] c[k] by {
                assert((c[k] - 2) % 4 == 0);
                if i < a.len() {
                    assert(ab[i] == a[i] && (a[i] - 0) % 4 == 0);
                } else {
                    assert(ab[i] == b[i - a.len()] && (b[i - a.len()] - 1) % 4 == 0);
                }
            }
            lemma_concat_distinct(ab, c);
            let abc = ab + c;
            assert forall|i: int, k: int| 0 <= i < abc.len() && 0 <= k < d.len() implies #[trigger] abc[i] != #[trigger] d[k] by {
                assert((d[k] - 3) % 4 == 0);
                if i < a.len() {
                    assert(abc[i] == a[i] && (a[i] - 0) % 4 == 0);
                } else if i < ab.len() {
                    assert(abc[i] == b[i - a.len()] && (b[i - a.len()] - 1) % 4 == 0);
                } else {
                    assert(abc[i] == c[i - ab.len()] && (c[i - ab.len()] - 2) % 4 == 0);
                }
            }
            lemma_concat_distinct(abc, d);
            assert(all =~= abc + d);
            assert forall|i: int| 0 <= i < all.len() implies 0 <= #[trigger] all[i] < 144 by {
                if i < a.len() {
                    assert(all[i] == a[i]);
                } else if i < ab.len() {
                    assert(all[i] == b[i - a.len()]);
                } else if i < abc.len() {
                    assert(all[i] == c[i - ab.len()]);
                } else {
                    assert(all[i] == d[i - abc.len()]);
                }
            }
        },
    }
}

/// An update of a sum that holds `before` gives the sum of `after` from
/// scratch, as long as no step saturates.
pub proof fn law_update_matches_scratch(net: SparseNNUE, before: BitBoard, after: BitBoard, persp: Player, j: int)
    requires
        net.wf(),
        before.inv(),
        after.inv(),
        0 <= j < net.config.hidden1,
        never_saturates(net, before, after, persp, j),
    ensures
        net.updated(net.scratch(before, persp, j), before, after, persp, j) == net.scratch(after, persp, j),
{
    let a = net.config.features_of(before, persp);
    let b = net.config.features_of(after, persp);
    let x = net.fc1_bias_q@[j];
    let n = net.config.feature_set.num_features() as nat;
    law_features_distinct(net.config, before, persp);
    law_features_distinct(net.config, after, persp);
    lemma_add_exact(net, x, a, j);
    lemma_add_exact(net, x, b, j);
    let s = net.scratch(before, persp, j);
    lemma_sub_exact(net, s, without(a, b), j);
    let t = sub_all(net, s, without(a, b), j);
    lemma_add_exact(net, t, without(b, a), j);
    lemma_swap_sums(net, a, b, j, n);
}

/// Weights this small leave room for every update between two boards.
pub open spec fn small_weights(net: SparseNNUE) -> bool {
    &&& forall|k: int| 0 <= k < net.fc1_weight_q@.len() ==> -682 <= #[trigger] net.fc1_weight_q@[k] <= 682
    &&& forall|j: int| 0 <= j < net.fc1_bias_q@.len() ==> -8191 <= #[trigger] net.fc1_bias_q@[j] <= 8191
}

/// All features are indices of the network.
spec fn in_range(net: SparseNNUE, fs: Seq<int>) -> bool {
    forall|i: int| 0 <= i < fs.len() ==> 0 <= #[trigger] fs[i] < net.config.feature_set.num_features()
}

proof fn lemma_range_prefix(net: SparseNNUE, fs: Seq<int>)
    requires
        in_range(net, fs),
        fs.len() > 0,
    ensures
        in_range(net, fs.drop_last()),
        0 <= fs.last() < net.config.feature_set.num_features(),
{
    let a = fs.drop_last();
    assert forall|i: int| 0 <= i < a.len() implies 0 <= #[trigger] a[i] < net.config.feature_set.num_features() by {
        assert(a[i] == fs[i]);
    }
    assert(fs.last() == fs[fs.len() - 1]);
}

proof fn lemma_small_sum(net: SparseNNUE, fs: Seq<int>, j: int)
    requires
        net.wf(),
        small_weights(net),
        0 <= j < net.config.hidden1,
        in_range(net, fs),
    ensures
        -682 * fs.len() <= weight_sum(net, fs, j) <= 682 * fs.len(),
    decreases fs.len(),
{
    if fs.len() > 0 {
        lemma_range_prefix(net, fs);
        lemma_small_sum(net, fs.drop_last(), j);
        let f = fs.last();
        let h = net.config.hidden1 as int;
        crate::network::lemma_row_end(f, net.config.feature_set.num_features() as int, h);
        assert(-682 <= net.weight(f, j) <= 682);
    }
}

proof fn lemma_small_room(net: SparseNNUE, x: int, fs: Seq<int>, j: int, k: int)
    requires
        net.wf(),
        small_weights(net),
        0 <= j < net.config.hidden1,
        in_range(net, fs),
        -8191 - 682 * k <= x <= 8191 + 682 * k,
        0 <= k,
        k + fs.len() <= 36,
    ensures
        room_to_add(net, x, fs, j),
        room_to_sub(net, x, fs, j),
    decreases fs.len(),
{
    lemma_small_sum(net, fs, j);
    if fs.len() > 0 {
        lemma_range_prefix(net, fs);
        lemma_small_room(net, x, fs.drop_last(), j, k);
    }
}

pub(crate) proof fn lemma_feature_count(config: NnueConfig, bb: BitBoard, persp: Player)
    requires
        bb.inv(),
        NnueConfig::fits(bb),
    ensures
        config.features_of(bb, persp).len() <= 12,
{
    crate::features::lemma_members_len(bb.white_barrels, 0);
    crate::features::lemma_members_len(bb.black_barrels, 0);
}

proof fn lemma_without_range(net: SparseNNUE, a: Seq<int>, b: Seq<int>)
    requires
        a.no_duplicates(),
        in_range(net, a),
    ensures
        in_range(net, without(a, b)),
{
    lemma_without(a, b);
    let x = without(a, b);
    assert forall|i: int| 0 <= i < x.len() implies 0 <= #[trigger] x[i] < net.config.feature_set.num_features() by {
        assert(x.contains(x[i]));
        let k = choose|k: int| 0 <= k < a.len() && a[k] == x[i];
        assert(0 <= a[k] < net.config.feature_set.num_features());
    }
}

/// With small weights no update saturates, so an accumulator that is updated
/// along a game always holds the sums from scratch.
pub proof fn law_small_weights_never_saturate(
    net: SparseNNUE,
    before: BitBoard,
    after: BitBoard,
    persp: Player,
    j: int,
)
    requires
        net.wf(),
        small_weights(net),
        before.inv(),
        after.inv(),
        NnueConfig::fits(before),
        NnueConfig::fits(after),
        0 <= j < net.config.hidden1,
    ensures
        never_saturates(net, before, after, persp, j),
        net.updated(net.scratch(before, persp, j), before, after, persp, j) == net.scratch(after, persp, j),
{
    let a = net.config.features_of(before, persp);
    let b = net.config.features_of(after, persp);
    let x = net.fc1_bias_q@[j] as int;
    law_features_distinct(net.config, before, persp);
    law_features_distinct(net.config, after, persp);
    lemma_feature_count(net.config, before, persp);
    lemma_feature_count(net.config, after, persp);
    lemma_without(a, b);
    lemma_without(b, a);
    lemma_without_range(net, a, b);
    lemma_without_range(net, b, a);
    lemma_small_sum(net, a, j);
    lemma_small_sum(net, without(a, b), j);
    lemma_small_room(net, x, a, j, 0);
    lemma_small_room(net, x, b, j, 0);
    let s = x + weight_sum(net, a, j);
    lemma_small_room(net, s, without(a, b), j, 12);
    lemma_small_room(net, s - weight_sum(net, without(a, b), j), without(b, a), j, 24);
    law_update_matches_scratch(net, before, after, persp, j);
}

/// What the features of one kind are, as a set.
proof fn lemma_kind_set(m: u64, f: bool, scale: int, base: int, x: int)
    ensures
        kind_features(members_from(m, 0), f, scale, base).contains(x) == exists|s: int|
            #[trigger] on(m, s) && x == base + seen(f, s) * scale,
{
    let ms = members_from(m, 0);
    let ks = kind_features(ms, f, scale, base);
    if ks.contains(x) {
        let i = choose|i: int| 0 <= i < ks.len() && ks[i] == x;
        lemma_member(m, 0, i);
        assert(on(m, ms[i]) && x == base + seen(f, ms[i]) * scale);
    }
    if exists|s: int| #[trigger] on(m, s) && x == base + seen(f, s) * scale {
        let s = choose|s: int| #[trigger] on(m, s) && x == base + seen(f, s) * scale;
        lemma_listed_member(m, 0, s);
        let i = choose|i: int| 0 <= i < ms.len() && #[trigger] ms[i] == s;
        assert(ks[i] == x);
    }
}

proof fn lemma_listed_member(m: u64, from: int, s: int)
    requires
        0 <= from <= s < 64,
        on(m, s),
    ensures
        exists|i: int| 0 <= i < members_from(m, from).len() && #[trigger] members_from(m, from)[i] == s,
    decreases 64 - from,
{
    let all = members_from(m, from);
    if from == s {
        assert(all[0] == s);
    } else {
        lemma_listed_member(m, from + 1, s);
        let rest = members_from(m, from + 1);
        let i = choose|i: int| 0 <= i < rest.len() && #[trigger] rest[i] == s;
        if on(m, from) {
            assert(all[i + 1] == s);
        } else {
            assert(all[i] == s);
        }
    }
}

proof fn lemma_concat_contains(a: Seq<int>, b: Seq<int>, x: int)
    ensures
        (a + b).contains(x) == (a.contains(x) || b.contains(x)),
{
    let c = a + b;
    if a.contains(x) {
        let i = choose|i: int| 0 <= i < a.len() && a[i] == x;
        assert(c[i] == x);
    }
    if b.contains(x) {
        let i = choose|i: int| 0 <= i < b.len() && b[i] == x;
        assert(c[a.len() + i] == x);
    }
    if c.contains(x) {
        let i = choose|i: int| 0 <= i < c.len() && c[i] == x;
        if i < a.len() {
            assert(a[i] == x);
        } else {
            assert(b[i - a.len()] == x);
        }
    }
}

/// A mask and its flip give the same features to the side that sees it flipped.
proof fn lemma_kind_mirror(m: u64, b: u64, scale: int, base: int, x: int)
    requires
        forall|s: int| #[trigger] on(b, s) ==> on_board(s),
        forall|s: int| #[trigger] on(m, s) == (on_board(s) && on(b, crate::mirror::flip(s))),
    ensures
        kind_features(members_from(m, 0), true, scale, base).contains(x) == kind_features(
            members_from(b, 0),
            false,
            scale,
            base,
        ).contains(x),
{
    lemma_kind_set(m, true, scale, base, x);
    lemma_kind_set(b, false, scale, base, x);
    if exists|s: int| #[trigger] on(m, s) && x == base + seen(true, s) * scale {
        let s = choose|s: int| #[trigger] on(m, s) && x == base + seen(true, s) * scale;
        lemma_flip(s);
        assert(on(b, crate::mirror::flip(s)) && x == base + seen(false, crate::mirror::flip(s)) * scale);
    }
    if exists|s: int| #[trigger] on(b, s) && x == base + seen(false, s) * scale {
        let s = choose|s: int| #[trigger] on(b, s) && x == base + seen(false, s) * scale;
        lemma_flip(s);
        let t = crate::mirror::flip(s);
        assert(on(m, t) && x == base + seen(true, t) * scale);
    }
}

/// A single pail is listed by its least member.
proof fn lemma_pail_members(m: u64)
    requires
        crate::play::at_most_one(m),
    ensures
        members_from(m, 0) == first_member(m),
{
    crate::phase::lemma_pail_number(m);
    crate::bits::lemma_empty(m);
    crate::features::lemma_members_len(m, 0);
    if m == 0 {
        crate::bits::lemma_count_empty(m, 64);
        assert(members_from(m, 0) =~= first_member(m));
    } else {
        let s = vstd::std_specs::bits::u64_trailing_zeros(m) as int;
        crate::features::lemma_members_lowest(m);
        crate::bits::lemma_lowest(m);
        let r = m & (m - 1) as u64;
        assert forall|t: int| 0 <= t < 64 implies !on(r, t) by {
            assert(on(r, t) == (on(m, t) && t != s));
        }
        crate::bits::lemma_count_empty(r, 64);
        crate::features::lemma_members_len(r, 0);
        assert(members_from(m, 0) =~= first_member(m));
    }
}

/// With a mirrored black side, white's view of a position and black's view of
/// its colour mirror have the same active features.
pub proof fn law_mirrored_features(config: NnueConfig, b: BitBoard, m: BitBoard, x: int)
    requires
        config.mirror_black,
        b.wf(),
        crate::packed::is_mirror_of(m, b),
    ensures
        config.features_of(b, Player::White).contains(x) == config.features_of(m, Player::Black).contains(x),
{
    crate::symmetry::law_mirror_wf(m, b);
    assert forall|s: int| #[trigger] on(m.black_barrels, s) == (on_board(s) && on(b.white_barrels, crate::mirror::flip(s))) by {
        m.lemma_square(s);
        if on_board(s) {
            crate::symmetry::lemma_mirror_masks(m, b, s);
        }
    }
    assert forall|s: int| #[trigger] on(m.white_barrels, s) == (on_board(s) && on(b.black_barrels, crate::mirror::flip(s))) by {
        m.lemma_square(s);
        if on_board(s) {
            crate::symmetry::lemma_mirror_masks(m, b, s);
        }
    }
    assert forall|s: int| #[trigger] on(m.black_pail, s) == (on_board(s) && on(b.white_pail, crate::mirror::flip(s))) by {
        m.lemma_square(s);
        if on_board(s) {
            crate::symmetry::lemma_mirror_masks(m, b, s);
        }
    }
    assert forall|s: int| #[trigger] on(m.white_pail, s) == (on_board(s) && on(b.black_pail, crate::mirror::flip(s))) by {
        m.lemma_square(s);
        if on_board(s) {
            crate::symmetry::lemma_mirror_masks(m, b, s);
        }
    }
    assert forall|s: int| on(b.white_barrels, s) || on(b.black_barrels, s) || on(b.white_pail, s) || on(b.black_pail, s) implies on_board(s) by {
        b.lemma_square(s);
    }
    lemma_pail_members(b.white_pail);
    lemma_pail_members(b.black_pail);
    lemma_pail_members(m.white_pail);
    lemma_pail_members(m.black_pail);
    let w1 = members_from(b.white_barrels, 0);
    let w2 = members_from(b.black_barrels, 0);
    let w3 = first_member(b.black_pail);
    let w4 = first_member(b.white_pail);
    let k1 = members_from(m.black_barrels, 0);
    let k2 = members_from(m.white_barrels, 0);
    let k3 = first_member(m.white_pail);
    let k4 = first_member(m.black_pail);
    match config.feature_set {
        FeatureSet::HalfPail => {
            let base = config.bucket_of(b, Player::White) * 108;
            assert(config.bucket_of(m, Player::Black) == config.bucket_of(b, Player::White)) by {
                if b.white_pail != 0 {
                    crate::phase::lemma_pail_number(b.white_pail);
                    crate::phase::lemma_pail_number(m.black_pail);
                    let t = vstd::std_specs::bits::u64_trailing_zeros(m.black_pail) as int;
                    crate::symmetry::lemma_mirror_pail(m.black_pail, b.white_pail);
                    assert(on(m.black_pail, t));
                    lemma_flip(t);
                } else {
                    crate::symmetry::lemma_mirror_pail(m.black_pail, b.white_pail);
                }
            }
            lemma_kind_mirror(m.black_barrels, b.white_barrels, 3, base, x);
            lemma_kind_mirror(m.white_barrels, b.black_barrels, 3, base + 1, x);
            lemma_kind_mirror(m.white_pail, b.black_pail, 3, base + 2, x);
            let a1 = kind_features(w1, false, 3, base);
            let a2 = kind_features(w2, false, 3, base + 1);
            let a3 = kind_features(w3, false, 3, base + 2);
            let c1 = kind_features(k1, true, 3, base);
            let c2 = kind_features(k2, true, 3, base + 1);
            let c3 = kind_features(k3, true, 3, base + 2);
            lemma_concat_contains(a1, a2, x);
            lemma_concat_contains(a1 + a2, a3, x);
            lemma_concat_contains(c1, c2, x);
            lemma_concat_contains(c1 + c2, c3, x);
        },
        FeatureSet::Plain => {
            lemma_kind_mirror(m.black_barrels, b.white_barrels, 4, 0, x);
            lemma_kind_mirror(m.white_barrels, b.black_barrels, 4, 1, x);
            lemma_kind_mirror(m.white_pail, b.black_pail, 4, 2, x);
            lemma_kind_mirror(m.black_pail, b.white_pail, 4, 3, x);
            let a1 = kind_features(w1, false, 4, 0);
            let a2 = kind_features(w2, false, 4, 1);
            let a3 = kind_features(w3, false, 4, 2);
            let a4 = kind_features(w4, false, 4, 3);
            let c1 = kind_features(k1, true, 4, 0);
            let c2 = kind_features(k2, true, 4, 1);
            let c3 = kind_features(k3, true, 4, 2);
            let c4 = kind_features(k4, true, 4, 3);
            lemma_concat_contains(a1, a2, x);
            lemma_concat_contains(a1 + a2, a3, x);
            lemma_concat_contains(a1 + a2 + a3, a4, x);
            lemma_concat_contains(c1, c2, x);
            lemma_concat_contains(c1 + c2, c3, x);
            lemma_concat_contains(c1 + c2 + c3, c4, x);
        },
    }
}

} // verus!
