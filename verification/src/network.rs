//! The quantized evaluation network: first-layer sums kept incrementally, and
//! the second layer's integer products.
//!
//! The last layer works on fractions and is supplied by the caller; it receives
//! the second layer's sums.
use vstd::prelude::*;
use crate::accumulator::DualAccumulator;
use crate::bitboard::BitBoard;
use crate::board::Player;
use crate::features::{wrote, ConfigError, FeatureSet, NnueConfig, MAX_ACTIVE_FEATURES, MAX_HIDDEN1};
use crate::simd::{add_lanes, sat16, sub_lanes};

verus! {

/// First-layer values are held between 0 and this before the second layer.
pub const IN_CLIP: i16 = 3000;

/// Second-layer rows are padded to a multiple of this.
pub const FC2_PAD: usize = 16;

/// Why weights do not make a network.
#[derive(Clone, Copy, PartialEq, Eq, Debug)]
pub enum NetError {
    Config(ConfigError),
    /// The first layer's weights or biases have the wrong number.
    FirstLayer,
    /// The second layer's weights have the wrong number.
    SecondLayer,
}

/// A network with sixteen-bit weights.
pub struct SparseNNUE {
    pub config: NnueConfig,
    /// One row of `hidden1` weights per feature.
    pub fc1_weight_q: Vec<i16>,
    pub fc1_bias_q: Vec<i16>,
    /// One zero-padded row per output head and neuron.
    pub fc2_weight_q: Vec<i16>,
    /// Length of a second-layer row.
    pub fc2_in_pad: usize,
}

/// The second layer's inputs before padding.
pub open spec fn fc2_in_of(c: NnueConfig) -> int {
    2 * c.hidden1 + c.dense_size
}

pub open spec fn padded(n: int) -> int {
    (n + 15) / 16 * 16
}

/// The first layer has a row per feature and a bias per neuron.
pub open spec fn first_layer_fits(c: NnueConfig, weights: Seq<i16>, biases: Seq<i16>) -> bool {
    weights.len() == c.feature_set.num_features() * c.hidden1 && biases.len() == c.hidden1
}

/// The starting value plus the weights of the features, one saturating step
/// after the other.
pub open spec fn add_all(net: SparseNNUE, x: i16, fs: Seq<int>, j: int) -> i16
    decreases fs.len(),
{
    if fs.len() == 0 {
        x
    } else {
        sat16(add_all(net, x, fs.drop_last(), j) + net.weight(fs.last(), j))
    }
}

/// The starting value minus the weights of the features, one saturating step
/// after the other.
pub open spec fn sub_all(net: SparseNNUE, x: i16, fs: Seq<int>, j: int) -> i16
    decreases fs.len(),
{
    if fs.len() == 0 {
        x
    } else {
        sat16(sub_all(net, x, fs.drop_last(), j) - net.weight(fs.last(), j))
    }
}

/// The features of `a` that `b` lacks, in order.
pub open spec fn without(a: Seq<int>, b: Seq<int>) -> Seq<int>
    decreases a.len(),
{
    if a.len() == 0 {
        Seq::empty()
    } else if b.contains(a.last()) {
        without(a.drop_last(), b)
    } else {
        without(a.drop_last(), b).push(a.last())
    }
}

/// The sum of the first `n` products of an input and a row of weights.
pub open spec fn dot_below(input: Seq<i16>, weights: Seq<i16>, at: int, n: nat) -> int
    decreases n,
{
    if n == 0 {
        0
    } else {
        dot_below(input, weights, at, (n - 1) as nat) + input[n - 1] * weights[at + n - 1]
    }
}

pub open spec fn clip(x: i16) -> i16 {
    if x < 0 {
        0
    } else if x > IN_CLIP {
        IN_CLIP
    } else {
        x
    }
}

/// One row of numbers after the other, each cut or filled to a width.
pub fn transpose_embedding<T: Copy>(rows: &Vec<Vec<T>>, hidden1: usize, zero: T) -> (r: Vec<T>)
    requires
        rows@.len() * hidden1 <= usize::MAX,
    ensures
        r@.len() == rows@.len() * hidden1,
        forall|f: int, j: int|
            0 <= f < rows@.len() && 0 <= j < hidden1 ==> #[trigger] r@[f * hidden1 + j] == if j < rows@[f]@.len() {
                rows@[f]@[j]
            } else {
                zero
            },
{
    let mut r: Vec<T> = Vec::new();
    let mut f: usize = 0;
    assert(0 * hidden1 == 0);
    while f < rows.len()
        invariant
            f <= rows@.len(),
            r@.len() == f * hidden1,
            forall|g: int, j: int|
                0 <= g < f && 0 <= j < hidden1 ==> #[trigger] r@[g * hidden1 + j] == if j < rows@[g]@.len() {
                    rows@[g]@[j]
                } else {
                    zero
                },
        decreases rows@.len() - f,
    {
        let ghost before = r@;
        let mut j: usize = 0;
        while j < hidden1
            invariant
                j <= hidden1,
                f < rows@.len(),
                before.len() == f * hidden1,
                r@.len() == before.len() + j,
                forall|k: int| 0 <= k < before.len() ==> #[trigger] r@[k] == before[k],
                forall|k: int|
                    0 <= k < j ==> #[trigger] r@[before.len() + k] == if k < rows@[f as int]@.len() {
                        rows@[f as int]@[k]
                    } else {
                        zero
                    },
            decreases hidden1 - j,
        {
            let row: &Vec<T> = &rows[f];
            let x: T = if j < row.len() { row[j] } else { zero };
            r.push(x);
            j = j + 1;
        }
        proof {
            assert((f + 1) * hidden1 == f * hidden1 + hidden1) by (nonlinear_arith);
            assert forall|g: int, j: int| 0 <= g < f + 1 && 0 <= j < hidden1 implies #[trigger] r@[g * hidden1 + j]
                == if j < rows@[g]@.len() {
                rows@[g]@[j]
            } else {
                zero
            } by {
                if g < f {
                    assert(g * hidden1 + j < f * hidden1) by (nonlinear_arith)
                        requires
                            0 <= g < f,
                            0 <= j < hidden1,
                    ;
                    assert(0 <= g * hidden1 + j) by (nonlinear_arith)
                        requires
                            0 <= g,
                            0 <= j,
                            0 <= hidden1,
                    ;
                    assert(r@[g * hidden1 + j] == before[g * hidden1 + j]);
                } else {
                    assert(r@[before.len() + j] == if j < rows@[f as int]@.len() {
                        rows@[f as int]@[j]
                    } else {
                        zero
                    });
                }
            }
        }
        f = f + 1;
    }
    r
}

impl SparseNNUE {
    pub open spec fn wf(&self) -> bool {
        &&& self.config.valid()
        &&& self.fc1_weight_q@.len() == self.config.feature_set.num_features() * self.config.hidden1
        &&& self.fc1_bias_q@.len() == self.config.hidden1
        &&& self.fc2_in_pad == padded(fc2_in_of(self.config))
        &&& self.fc2_weight_q@.len() == self.config.output_buckets * self.config.hidden2 * self.fc2_in_pad
    }

    /// The first-layer weight of a feature for neuron `j`.
    pub open spec fn weight(&self, f: int, j: int) -> i16 {
        self.fc1_weight_q@[f * self.config.hidden1 + j]
    }

    /// The first-layer sum of neuron `j` from scratch.
    pub open spec fn scratch(&self, bb: BitBoard, persp: Player, j: int) -> i16 {
        add_all(*self, self.fc1_bias_q@[j], self.config.features_of(bb, persp), j)
    }

    /// The first-layer sum of neuron `j` after an update from `before` to
    /// `after`, starting from `x`.
    pub open spec fn updated(&self, x: i16, before: BitBoard, after: BitBoard, persp: Player, j: int) -> i16 {
        let a = self.config.features_of(before, persp);
        let b = self.config.features_of(after, persp);
        if self.config.feature_set == FeatureSet::HalfPail && before.pail_mask_of(persp) != after.pail_mask_of(persp) {
            self.scratch(after, persp, j)
        } else {
            add_all(*self, sub_all(*self, x, without(a, b), j), without(b, a), j)
        }
    }

    /// Builds a network from unpadded quantized weights.
    pub fn finish(
        config: NnueConfig,
        fc1_weight_q: Vec<i16>,
        fc1_bias_q: Vec<i16>,
        fc2_rows: Vec<i16>,
    ) -> (r: Result<SparseNNUE, NetError>)
        ensures
            match r {
                Ok(net) => {
                    &&& net.wf()
                    &&& net.config == config
                    &&& net.fc1_weight_q == fc1_weight_q
                    &&& net.fc1_bias_q == fc1_bias_q
                    &&& fc2_rows@.len() == config.output_buckets * config.hidden2 * fc2_in_of(config)
                    &&& forall|row: int, k: int|
                        0 <= row < config.output_buckets * config.hidden2 && 0 <= k < net.fc2_in_pad
                            ==> #[trigger] net.fc2_weight_q@[row * net.fc2_in_pad + k] == (if k < fc2_in_of(config) {
                            fc2_rows@[row * fc2_in_of(config) + k]
                        } else {
                            0i16
                        })
                },
                Err(NetError::Config(e)) => config.fault() == Some(e),
                Err(NetError::FirstLayer) => config.valid() && !first_layer_fits(config, fc1_weight_q@, fc1_bias_q@),
                Err(NetError::SecondLayer) => config.valid() && first_layer_fits(config, fc1_weight_q@, fc1_bias_q@)
                    && fc2_rows@.len() != config.output_buckets * config.hidden2 * fc2_in_of(config),
            },
    {
        if let Err(e) = config.validate() {
            return Err(NetError::Config(e));
        }
        let h: usize = config.hidden1;
        let features: usize = config.feature_set.num_features();
        proof {
            lemma_sizes(config);
        }
        if fc1_weight_q.len() != features * h || fc1_bias_q.len() != h {
            return Err(NetError::FirstLayer);
        }
        let fc2_in: usize = 2 * h + config.dense_size;
        let pad: usize = (fc2_in + FC2_PAD - 1) / FC2_PAD * FC2_PAD;
        let rows: usize = config.output_buckets * config.hidden2;
        if fc2_rows.len() != rows * fc2_in {
            return Err(NetError::SecondLayer);
        }
        let mut fc2_weight_q: Vec<i16> = Vec::new();
        let mut r: usize = 0;
        assert(0 * pad == 0);
        while r < rows
            invariant
                r <= rows,
                rows <= 3200,
                fc2_in <= pad <= 1072,
                fc2_rows@.len() == rows * fc2_in,
                fc2_weight_q@.len() == r * pad,
                forall|row: int, k: int|
                    0 <= row < r && 0 <= k < pad ==> #[trigger] fc2_weight_q@[row * pad + k] == (if k < fc2_in {
                        fc2_rows@[row * fc2_in + k]
                    } else {
                        0i16
                    }),
            decreases rows - r,
        {
            let mut k: usize = 0;
            while k < pad
                invariant
                    r < rows,
                    rows <= 3200,
                    k <= pad,
                    fc2_in <= pad <= 1072,
                    fc2_rows@.len() == rows * fc2_in,
                    fc2_weight_q@.len() == r * pad + k,
                    forall|row: int, c: int|
                        (0 <= row < r && 0 <= c < pad) || (row == r && 0 <= c < k) ==> #[trigger] fc2_weight_q@[row * pad
                            + c] == (if c < fc2_in {
                            fc2_rows@[row * fc2_in + c]
                        } else {
                            0i16
                        }),
                decreases pad - k,
            {
                let w: i16 = if k < fc2_in {
                    proof {
                        lemma_row_bound(r as int, rows as int, fc2_in as int, k as int);
                        lemma_small_product(r as int, 3200, fc2_in as int, 1072);
                    }
                    fc2_rows[r * fc2_in + k]
                } else {
                    0
                };
                let ghost before = fc2_weight_q@;
                fc2_weight_q.push(w);
                proof {
                    assert forall|row: int, c: int|
                        (0 <= row < r && 0 <= c < pad) || (row == r && 0 <= c < k + 1) implies #[trigger] fc2_weight_q@[row
                        * pad + c] == (if c < fc2_in {
                        fc2_rows@[row * fc2_in + c]
                    } else {
                        0i16
                    }) by {
                        if row == r && c == k {
                        } else {
                            lemma_row_before(row, r as int, pad as int, c, k as int);
                            assert(before[row * pad + c] == fc2_weight_q@[row * pad + c]);
                        }
                    }
                }
                k = k + 1;
            }
            r = r + 1;
            assert((r - 1) * pad + pad == r * pad) by (nonlinear_arith);
        }
        Ok(SparseNNUE { config, fc1_weight_q, fc1_bias_q, fc2_weight_q, fc2_in_pad: pad })
    }
}

/// Sixteen values of a vector.
pub(crate) fn load_lanes(v: &Vec<i16>, at: usize) -> (r: [i16; 16])
    requires
        at + 16 <= v@.len(),
    ensures
        forall|i: int| 0 <= i < 16 ==> #[trigger] r@[i] == v@[at + i],
{
    let len: usize = v.len();
    let mut r: [i16; 16] = [0i16; 16];
    let mut i: usize = 0;
    while i < 16
        invariant
            i <= 16,
            at + 16 <= len,
            len == v@.len(),
            forall|k: int| 0 <= k < i ==> #[trigger] r@[k] == v@[at + k],
        decreases 16 - i,
    {
        r[i] = v[at + i];
        i = i + 1;
    }
    r
}

/// Sixteen values of an accumulator.
fn load_acc_lanes(v: &[i16; MAX_HIDDEN1], at: usize) -> (r: [i16; 16])
    requires
        at + 16 <= 512,
    ensures
        forall|i: int| 0 <= i < 16 ==> #[trigger] r@[i] == v@[at + i],
{
    let mut r: [i16; 16] = [0i16; 16];
    let mut i: usize = 0;
    while i < 16
        invariant
            i <= 16,
            at + 16 <= 512,
            forall|k: int| 0 <= k < i ==> #[trigger] r@[k] == v@[at + k],
        decreases 16 - i,
    {
        r[i] = v[at + i];
        i = i + 1;
    }
    r
}

/// Puts sixteen values into an accumulator.
fn store_acc_lanes(v: &mut [i16; MAX_HIDDEN1], at: usize, lanes: &[i16; 16])
    requires
        at + 16 <= 512,
    ensures
        forall|i: int|
            0 <= i < 512 ==> #[trigger] final(v)@[i] == (if at <= i < at + 16 { lanes@[i - at] } else { old(v)@[i] }),
{
    let mut i: usize = 0;
    while i < 16
        invariant
            i <= 16,
            at + 16 <= 512,
            forall|k: int|
                0 <= k < 512 ==> #[trigger] v@[k] == (if at <= k < at + i { lanes@[k - at] } else { old(v)@[k] }),
        decreases 16 - i,
    {
        v[at + i] = lanes[i];
        i = i + 1;
    }
}

impl SparseNNUE {
    /// Adds the weights of a feature, saturating.
    fn add_feature(&self, acc: &mut [i16; MAX_HIDDEN1], feat: usize)
        requires
            self.wf(),
            feat < self.config.feature_set.num_features(),
        ensures
            forall|j: int|
                0 <= j < 512 ==> #[trigger] final(acc)@[j] == (if j < self.config.hidden1 {
                    sat16(old(acc)@[j] + self.weight(feat as int, j))
                } else {
                    old(acc)@[j]
                }),
    {
        let h: usize = self.config.hidden1;
        let ghost before = acc@;
        proof {
            lemma_sizes(self.config);
            lemma_row_end(feat as int, self.config.feature_set.num_features() as int, h as int);
        }
        let row: usize = feat * h;
        let mut c: usize = 0;
        while c < h
            invariant
                self.wf(),
                h == self.config.hidden1,
                h <= 512,
                h % 16 == 0,
                c % 16 == 0,
                c <= h,
                row == feat * h,
                row + h <= self.fc1_weight_q@.len(),
                row + h <= 3996 * 512,
                forall|j: int|
                    0 <= j < 512 ==> #[trigger] acc@[j] == (if j < c {
                        sat16(before[j] + self.weight(feat as int, j))
                    } else {
                        before[j]
                    }),
            decreases h - c,
        {
            let a = load_acc_lanes(acc, c);
            let w = load_lanes(&self.fc1_weight_q, row + c);
            let r = add_lanes(a, w);
            let ghost mid = acc@;
            store_acc_lanes(acc, c, &r);
            proof {
                assert forall|j: int| 0 <= j < 512 implies #[trigger] acc@[j] == (if j < c + 16 {
                    sat16(before[j] + self.weight(feat as int, j))
                } else {
                    before[j]
                }) by {
                    if c <= j < c + 16 {
                        assert(r@[j - c] == sat16(a@[j - c] + w@[j - c]));
                        assert(a@[j - c] == mid[c + (j - c)]);
                        assert(w@[j - c] == self.fc1_weight_q@[row + c + (j - c)]);
                    }
                }
            }
            c = c + 16;
        }
    }

    /// Subtracts the weights of a feature, saturating.
    fn remove_feature(&self, acc: &mut [i16; MAX_HIDDEN1], feat: usize)
        requires
            self.wf(),
            feat < self.config.feature_set.num_features(),
        ensures
            forall|j: int|
                0 <= j < 512 ==> #[trigger] final(acc)@[j] == (if j < self.config.hidden1 {
                    sat16(old(acc)@[j] - self.weight(feat as int, j))
                } else {
                    old(acc)@[j]
                }),
    {
        let h: usize = self.config.hidden1;
        let ghost before = acc@;
        proof {
            lemma_sizes(self.config);
            lemma_row_end(feat as int, self.config.feature_set.num_features() as int, h as int);
        }
        let row: usize = feat * h;
        let mut c: usize = 0;
        while c < h
            invariant
                self.wf(),
                h == self.config.hidden1,
                h <= 512,
                h % 16 == 0,
                c % 16 == 0,
                c <= h,
                row == feat * h,
                row + h <= self.fc1_weight_q@.len(),
                row + h <= 3996 * 512,
                forall|j: int|
                    0 <= j < 512 ==> #[trigger] acc@[j] == (if j < c {
                        sat16(before[j] - self.weight(feat as int, j))
                    } else {
                        before[j]
                    }),
            decreases h - c,
        {
            let a = load_acc_lanes(acc, c);
            let w = load_lanes(&self.fc1_weight_q, row + c);
            let r = sub_lanes(a, w);
            let ghost mid = acc@;
            store_acc_lanes(acc, c, &r);
            proof {
                assert forall|j: int| 0 <= j < 512 implies #[trigger] acc@[j] == (if j < c + 16 {
                    sat16(before[j] - self.weight(feat as int, j))
                } else {
                    before[j]
                }) by {
                    if c <= j < c + 16 {
                        assert(r@[j - c] == sat16(a@[j - c] - w@[j - c]));
                        assert(a@[j - c] == mid[c + (j - c)]);
                        assert(w@[j - c] == self.fc1_weight_q@[row + c + (j - c)]);
                    }
                }
            }
            c = c + 16;
        }
    }

    /// The sums of one side from scratch.
    fn init_perspective(&self, bb: &BitBoard, persp: Player, acc: &mut [i16; MAX_HIDDEN1])
        requires
            self.wf(),
            bb.inv(),
            NnueConfig::fits(*bb),
        ensures
            forall|j: int|
                0 <= j < 512 ==> #[trigger] final(acc)@[j] == (if j < self.config.hidden1 {
                    self.scratch(*bb, persp, j)
                } else {
                    old(acc)@[j]
                }),
    {
        let h: usize = self.config.hidden1;
        let ghost before = acc@;
        let mut i: usize = 0;
        while i < h
            invariant
                self.wf(),
                h == self.config.hidden1,
                h <= 512,
                i <= h,
                forall|j: int|
                    0 <= j < 512 ==> #[trigger] acc@[j] == (if j < i { self.fc1_bias_q@[j] } else { before[j] }),
            decreases h - i,
        {
            acc[i] = self.fc1_bias_q[i];
            i = i + 1;
        }
        let mut feats: [u16; MAX_ACTIVE_FEATURES] = [0u16; MAX_ACTIVE_FEATURES];
        let n: usize = self.config.active_features(bb, persp, &mut feats);
        let ghost fs = self.config.features_of(*bb, persp);
        let mut k: usize = 0;
        assert(fs.subrange(0, 0) =~= Seq::<int>::empty());
        while k < n
            invariant
                self.wf(),
                h == self.config.hidden1,
                k <= n,
                wrote(feats@, n as int, fs, self.config.feature_set.num_features() as int),
                forall|j: int|
                    0 <= j < 512 ==> #[trigger] acc@[j] == (if j < h {
                        add_all(*self, self.fc1_bias_q@[j], fs.subrange(0, k as int), j)
                    } else {
                        before[j]
                    }),
            decreases n - k,
        {
            assert(feats@[k as int] == fs[k as int]);
            self.add_feature(acc, feats[k] as usize);
            proof {
                let s = fs.subrange(0, k as int + 1);
                assert(s.drop_last() =~= fs.subrange(0, k as int));
                assert(s.last() == fs[k as int]);
            }
            k = k + 1;
        }
        proof {
            assert(fs.subrange(0, n as int) =~= fs);
        }
    }

    /// The sums of both sides from scratch.
    pub fn init_accumulators(&self, bb: &BitBoard, acc: &mut DualAccumulator)
        requires
            self.wf(),
            bb.inv(),
            NnueConfig::fits(*bb),
        ensures
            self.holds(*bb, *final(acc)),
            forall|j: int| self.config.hidden1 <= j < 512 ==> #[trigger] final(acc).white_pre@[j] == old(acc).white_pre@[j],
            forall|j: int| self.config.hidden1 <= j < 512 ==> #[trigger] final(acc).black_pre@[j] == old(acc).black_pre@[j],
    {
        self.init_perspective(bb, Player::White, &mut acc.white_pre);
        self.init_perspective(bb, Player::Black, &mut acc.black_pre);
    }

    /// The accumulator holds the sums of the board from scratch.
    pub open spec fn holds(&self, bb: BitBoard, acc: DualAccumulator) -> bool {
        &&& forall|j: int|
            0 <= j < self.config.hidden1 ==> #[trigger] acc.white_pre@[j] == self.scratch(bb, Player::White, j)
        &&& forall|j: int|
            0 <= j < self.config.hidden1 ==> #[trigger] acc.black_pre@[j] == self.scratch(bb, Player::Black, j)
    }

    /// The accumulators are those of a parent brought to its child.
    #[verifier::opaque]
    pub open spec fn brings(&self, before: BitBoard, after: BitBoard, x: DualAccumulator, y: DualAccumulator) -> bool {
        &&& forall|j: int|
            0 <= j < self.config.hidden1 ==> #[trigger] y.white_pre@[j] == self.updated(
                x.white_pre@[j],
                before,
                after,
                Player::White,
                j,
            )
        &&& forall|j: int|
            0 <= j < self.config.hidden1 ==> #[trigger] y.black_pre@[j] == self.updated(
                x.black_pre@[j],
                before,
                after,
                Player::Black,
                j,
            )
    }

    /// Brings the sums of one side from `before` to `after`.
    fn update_perspective(&self, before: &BitBoard, after: &BitBoard, persp: Player, acc: &mut [i16; MAX_HIDDEN1])
        requires
            self.wf(),
            before.inv(),
            after.inv(),
            NnueConfig::fits(*before),
            NnueConfig::fits(*after),
        ensures
            forall|j: int|
                0 <= j < 512 ==> #[trigger] final(acc)@[j] == (if j < self.config.hidden1 {
                    self.updated(old(acc)@[j], *before, *after, persp, j)
                } else {
                    old(acc)@[j]
                }),
    {
        let h: usize = self.config.hidden1;
        if self.config.bucket_changed(before, after, persp) {
            self.init_perspective(after, persp, acc);
            return;
        }
        let ghost start = acc@;
        let ghost a = self.config.features_of(*before, persp);
        let ghost b = self.config.features_of(*after, persp);
        let mut fb: [u16; MAX_ACTIVE_FEATURES] = [0u16; MAX_ACTIVE_FEATURES];
        let mut fa: [u16; MAX_ACTIVE_FEATURES] = [0u16; MAX_ACTIVE_FEATURES];
        let nb: usize = self.config.active_features(before, persp, &mut fb);
        let na: usize = self.config.active_features(after, persp, &mut fa);
        let mut k: usize = 0;
        assert(a.subrange(0, 0) =~= Seq::<int>::empty());
        while k < nb
            invariant
                self.wf(),
                h == self.config.hidden1,
                k <= nb,
                wrote(fb@, nb as int, a, self.config.feature_set.num_features() as int),
                wrote(fa@, na as int, b, self.config.feature_set.num_features() as int),
                forall|j: int|
                    0 <= j < 512 ==> #[trigger] acc@[j] == (if j < h {
                        sub_all(*self, start[j], without(a.subrange(0, k as int), b), j)
                    } else {
                        start[j]
                    }),
            decreases nb - k,
        {
            let f: u16 = fb[k];
            assert(fb@[k as int] == a[k as int]);
            let kept: bool = has_feature(&fa, na, f, Ghost(b));
            proof {
                let s = a.subrange(0, k as int + 1);
                assert(s.drop_last() =~= a.subrange(0, k as int));
                assert(s.last() == a[k as int]);
                let w = without(a.subrange(0, k as int), b);
                assert(w.push(f as int).drop_last() =~= w);
            }
            if !kept {
                self.remove_feature(acc, f as usize);
            }
            k = k + 1;
        }
        proof {
            assert(a.subrange(0, nb as int) =~= a);
        }
        let ghost mid = acc@;
        let mut i: usize = 0;
        assert(b.subrange(0, 0) =~= Seq::<int>::empty());
        while i < na
            invariant
                self.wf(),
                h == self.config.hidden1,
                i <= na,
                wrote(fb@, nb as int, a, self.config.feature_set.num_features() as int),
                wrote(fa@, na as int, b, self.config.feature_set.num_features() as int),
                forall|j: int|
                    0 <= j < 512 ==> #[trigger] acc@[j] == (if j < h {
                        add_all(*self, mid[j], without(b.subrange(0, i as int), a), j)
                    } else {
                        mid[j]
                    }),
            decreases na - i,
        {
            let f: u16 = fa[i];
            assert(fa@[i as int] == b[i as int]);
            let kept: bool = has_feature(&fb, nb, f, Ghost(a));
            proof {
                let s = b.subrange(0, i as int + 1);
                assert(s.drop_last() =~= b.subrange(0, i as int));
                assert(s.last() == b[i as int]);
                let w = without(b.subrange(0, i as int), a);
                assert(w.push(f as int).drop_last() =~= w);
            }
            if !kept {
                self.add_feature(acc, f as usize);
            }
            i = i + 1;
        }
        proof {
            assert(b.subrange(0, na as int) =~= b);
        }
    }

    /// Brings an accumulator from `before` to `after` by the difference of the
    /// active features; a side whose pail bucket changed is summed anew.
    pub fn update(&self, before: &BitBoard, after: &BitBoard, acc: &mut DualAccumulator)
        requires
            self.wf(),
            before.inv(),
            after.inv(),
            NnueConfig::fits(*before),
            NnueConfig::fits(*after),
        ensures
            forall|j: int|
                0 <= j < 512 ==> #[trigger] final(acc).white_pre@[j] == (if j < self.config.hidden1 {
                    self.updated(old(acc).white_pre@[j], *before, *after, Player::White, j)
                } else {
                    old(acc).white_pre@[j]
                }),
            forall|j: int|
                0 <= j < 512 ==> #[trigger] final(acc).black_pre@[j] == (if j < self.config.hidden1 {
                    self.updated(old(acc).black_pre@[j], *before, *after, Player::Black, j)
                } else {
                    old(acc).black_pre@[j]
                }),
    {
        self.update_perspective(before, after, Player::White, &mut acc.white_pre);
        self.update_perspective(before, after, Player::Black, &mut acc.black_pre);
    }
}

fn has_feature(list: &[u16; MAX_ACTIVE_FEATURES], n: usize, f: u16, Ghost(fs): Ghost<Seq<int>>) -> (r: bool)
    requires
        n <= 12,
        n == fs.len(),
        forall|i: int| 0 <= i < n ==> #[trigger] list@[i] == fs[i],
    ensures
        r == fs.contains(f as int),
{
    let mut i: usize = 0;
    while i < n
        invariant
            i <= n <= 12,
            n == fs.len(),
            forall|k: int| 0 <= k < n ==> #[trigger] list@[k] == fs[k],
            forall|k: int| 0 <= k < i ==> #[trigger] fs[k] != f,
        decreases n - i,
    {
        if list[i] == f {
            assert(fs[i as int] == f);
            return true;
        }
        assert(list@[i as int] == fs[i as int]);
        i = i + 1;
    }
    false
}

pub proof fn lemma_row_end(f: int, n: int, h: int)
    requires
        0 <= f < n,
        0 <= h,
    ensures
        0 <= f * h,
        f * h + h <= n * h,
{
    assert(0 <= f * h && f * h + h <= n * h) by (nonlinear_arith)
        requires
            0 <= f,
            f + 1 <= n,
            0 <= h,
    ;
}

proof fn lemma_row_bound(r: int, rows: int, width: int, k: int)
    requires
        0 <= r < rows,
        0 <= k < width,
    ensures
        0 <= r * width + k < rows * width,
{
    assert(0 <= r * width && r * width + k < rows * width) by (nonlinear_arith)
        requires
            0 <= r,
            r + 1 <= rows,
            0 <= k < width,
    ;
}

proof fn lemma_row_before(row: int, r: int, pad: int, c: int, k: int)
    requires
        0 <= row <= r,
        0 <= c < pad,
        row < r || c < k,
        0 <= k <= pad,
    ensures
        0 <= row * pad + c < r * pad + k,
{
    if row < r {
        lemma_row_bound(row, r, pad, c);
    } else {
        assert(row * pad >= 0) by (nonlinear_arith)
            requires
                row >= 0,
                pad >= 0,
        ;
    }
}

pub proof fn lemma_small_product(a: int, x: int, b: int, y: int)
    requires
        0 <= a <= x,
        0 <= b <= y,
    ensures
        0 <= a * b <= x * y,
{
    assert(0 <= a * b <= x * y) by (nonlinear_arith)
        requires
            0 <= a <= x,
            0 <= b <= y,
    ;
}

pub proof fn lemma_sizes(c: NnueConfig)
    requires
        c.valid(),
    ensures
        c.feature_set.num_features() * c.hidden1 <= 3996 * 512,
        fc2_in_of(c) <= padded(fc2_in_of(c)) <= 1072,
        c.output_buckets * c.hidden2 <= 3200,
        c.output_buckets * c.hidden2 * fc2_in_of(c) <= 3200 * 1072,
        c.output_buckets * c.hidden2 * padded(fc2_in_of(c)) <= 3200 * 1072,
        0 <= c.output_buckets * c.hidden2,
{
    lemma_small_product(c.feature_set.num_features() as int, 3996, c.hidden1 as int, 512);
    lemma_small_product(c.output_buckets as int, 25, c.hidden2 as int, 128);
    lemma_small_product(c.output_buckets * c.hidden2, 3200, fc2_in_of(c), 1072);
    lemma_small_product(c.output_buckets * c.hidden2, 3200, padded(fc2_in_of(c)), 1072);
}

} // verus!
