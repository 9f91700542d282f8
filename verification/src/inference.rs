//! The second layer's sums.
use vstd::prelude::*;
use crate::accumulator::DualAccumulator;
use crate::bitboard::BitBoard;
use crate::board::Player;
use crate::dense::{dense_inputs, dense_num, in_128ths, DENSE_DEN};
use crate::network::{
    clip, dot_below, fc2_in_of, lemma_row_end, lemma_sizes, lemma_small_product, load_lanes, SparseNNUE, IN_CLIP,
};
use crate::race::RaceTable;
use crate::simd::{add_wide_lanes, dot_lanes, lemma_wrap32_small, lemma_wrap32_sum, sum_lanes, wrap32};

verus! {

/// The largest second-layer weight: 3.0 in 1024ths.
pub const W2_LIMIT: i16 = 3072;

impl SparseNNUE {
    /// The second layer's input: both sides' clipped sums, the dense inputs,
    /// and zeros up to the padded length.
    pub open spec fn input_at(&self, bb: BitBoard, acc: DualAccumulator, k: int) -> i16 {
        let h = self.config.hidden1 as int;
        if k < h {
            clip(acc.white_pre@[k])
        } else if k < 2 * h {
            clip(acc.black_pre@[k - h])
        } else if k < fc2_in_of(self.config) {
            in_128ths(dense_num(bb, k - 2 * h), DENSE_DEN@[k - 2 * h] as int) as i16
        } else {
            0
        }
    }

    pub open spec fn input_of(&self, bb: BitBoard, acc: DualAccumulator) -> Seq<i16> {
        Seq::new(self.fc2_in_pad as nat, |k: int| self.input_at(bb, acc, k))
    }

    /// The output head of a board.
    pub open spec fn head_of(&self, bb: BitBoard) -> int {
        if self.config.output_buckets >= 25 {
            bb.white_scored * 5 + bb.black_scored
        } else {
            0
        }
    }

    /// The second-layer sum of neuron `n`: the product of the input with the
    /// head's row, on the 32-bit circle.
    pub open spec fn sum_at(&self, bb: BitBoard, acc: DualAccumulator, n: int) -> i32 {
        wrap32(self.exact_sum(bb, acc, n))
    }

    /// The product of the input with the head's row for neuron `n`.
    pub open spec fn exact_sum(&self, bb: BitBoard, acc: DualAccumulator, n: int) -> int {
        dot_below(
            self.input_of(bb, acc),
            self.fc2_weight_q@,
            (self.head_of(bb) * self.config.hidden2 + n) * self.fc2_in_pad,
            self.fc2_in_pad as nat,
        )
    }

    /// The second layer is so small that its sums stay within 32 bits.
    pub open spec fn sums_fit(&self) -> bool {
        self.config.hidden1 <= 112 && forall|i: int|
            0 <= i < self.fc2_weight_q@.len() ==> -W2_LIMIT <= #[trigger] self.fc2_weight_q@[i] <= W2_LIMIT
    }

    /// The second layer's input.
    fn fc2_input(&self, bb: &BitBoard, acc: &DualAccumulator, race: &RaceTable) -> (r: Vec<i16>)
        requires
            self.wf(),
            bb.wf(),
            race.wf(),
        ensures
            r@ == self.input_of(*bb, *acc),
            forall|k: int| 0 <= k < r@.len() ==> #[trigger] r@[k] > i16::MIN,
            forall|k: int| 0 <= k < r@.len() ==> input_fits(#[trigger] r@[k], k, self.config.hidden1 as int),
    {
        let h: usize = self.config.hidden1;
        let dense_size: usize = self.config.dense_size;
        let pad: usize = self.fc2_in_pad;
        proof {
            lemma_sizes(self.config);
        }
        let dense = dense_inputs(bb, race, dense_size);
        let mut r: Vec<i16> = Vec::new();
        let mut k: usize = 0;
        while k < pad
            invariant
                self.wf(),
                h == self.config.hidden1,
                dense_size == self.config.dense_size,
                pad == self.fc2_in_pad,
                h <= 512,
                dense_size <= 28,
                k <= pad <= 1072,
                forall|j: int|
                    0 <= j < 32 ==> #[trigger] dense@[j] == (if j < dense_size {
                        in_128ths(dense_num(*bb, j), DENSE_DEN@[j] as int)
                    } else {
                        0
                    }),
                forall|j: int| 0 <= j < 32 ==> -128 <= #[trigger] dense@[j] <= 128,
                r@.len() == k,
                forall|j: int| 0 <= j < k ==> #[trigger] r@[j] == self.input_at(*bb, *acc, j),
                forall|j: int| 0 <= j < k ==> #[trigger] r@[j] > i16::MIN,
                forall|j: int| 0 <= j < k ==> input_fits(#[trigger] r@[j], j, h as int),
            decreases pad - k,
        {
            let x: i16 = if k < 2 * h {
                let v: i16 = if k < h { acc.white_pre[k] } else { acc.black_pre[k - h] };
                if v < 0 {
                    0
                } else if v > IN_CLIP {
                    IN_CLIP
                } else {
                    v
                }
            } else if k < 2 * h + dense_size {
                assert(dense@[k - 2 * h] == in_128ths(dense_num(*bb, k - 2 * h), DENSE_DEN@[k - 2 * h] as int));
                dense[k - 2 * h]
            } else {
                0
            };
            r.push(x);
            k = k + 1;
        }
        assert(r@ =~= self.input_of(*bb, *acc));
        r
    }

    /// The product of an input with the row that starts at `at`, sixteen
    /// products at a time.
    fn row_sum(&self, input: &Vec<i16>, at: usize) -> (r: i32)
        requires
            self.wf(),
            input@.len() == self.fc2_in_pad,
            at + self.fc2_in_pad <= self.fc2_weight_q@.len(),
            forall|k: int| 0 <= k < input@.len() ==> #[trigger] input@[k] > i16::MIN,
        ensures
            r == wrap32(dot_below(input@, self.fc2_weight_q@, at as int, self.fc2_in_pad as nat)),
    {
        let pad: usize = self.fc2_in_pad;
        let n_weights: usize = self.fc2_weight_q.len();
        let mut lanes: [i32; 8] = [0i32; 8];
        let ghost mut exact: Seq<int> = Seq::new(8, |i: int| 0int);
        let mut c: usize = 0;
        proof {
            lemma_wrap32_small(0);
        }
        while c < pad
            invariant
                self.wf(),
                pad == self.fc2_in_pad,
                pad % 16 == 0,
                c % 16 == 0,
                c <= pad,
                input@.len() == pad,
                n_weights == self.fc2_weight_q@.len(),
                at + pad <= n_weights,
                forall|k: int| 0 <= k < input@.len() ==> #[trigger] input@[k] > i16::MIN,
                exact.len() == 8,
                forall|i: int| 0 <= i < 8 ==> #[trigger] lanes@[i] == wrap32(exact[i]),
                exact[0] + exact[1] + exact[2] + exact[3] + exact[4] + exact[5] + exact[6] + exact[7] == dot_below(
                    input@,
                    self.fc2_weight_q@,
                    at as int,
                    c as nat,
                ),
            decreases pad - c,
        {
            let a = load_lanes(input, c);
            let w = load_lanes(&self.fc2_weight_q, at + c);
            proof {
                assert forall|i: int| 0 <= i < 16 implies #[trigger] a@[i] > i16::MIN by {
                    assert(a@[i] == input@[c + i]);
                }
            }
            let d = dot_lanes(a, w);
            let ghost before = exact;
            let ghost old_lanes = lanes@;
            lanes = add_wide_lanes(lanes, d);
            proof {
                exact = Seq::new(8, |i: int| before[i] + d@[i]);
                assert forall|i: int| 0 <= i < 8 implies #[trigger] lanes@[i] == wrap32(exact[i]) by {
                    lemma_wrap32_sum(before[i], d@[i] as int);
                    assert(old_lanes[i] == wrap32(before[i]));
                }
                lemma_sixteen(input@, self.fc2_weight_q@, at as int, c as int, a@, w@, d@);
            }
            c = c + 16;
        }
        let r: i32 = sum_lanes(lanes);
        proof {
            lemma_wrap_eight(exact, lanes@);
        }
        r
    }

    /// The output head of a position and the second layer's sums for it, with
    /// accumulators computed from scratch.
    pub fn evaluate_from_scratch(&self, bb: &BitBoard, race: &RaceTable) -> (r: (usize, Vec<i32>))
        requires
            self.wf(),
            bb.wf(),
            race.wf(),
        ensures
            r.0 == self.head_of(*bb),
            r.0 < self.config.output_buckets,
            r.1@.len() == self.config.hidden2,
            exists|acc: DualAccumulator| #[trigger]
                self.holds(*bb, acc) && forall|n: int|
                    0 <= n < r.1@.len() ==> #[trigger] r.1@[n] == self.sum_at(*bb, acc, n),
    {
        let mut acc = DualAccumulator::default();
        proof {
            crate::phase::lemma_barrels_popcount(*bb, Player::White);
            crate::phase::lemma_barrels_popcount(*bb, Player::Black);
        }
        self.init_accumulators(bb, &mut acc);
        self.evaluate(bb, &acc, race)
    }

    /// The output head of a position and the second layer's sums for it.
    pub fn evaluate(&self, bb: &BitBoard, acc: &DualAccumulator, race: &RaceTable) -> (r: (usize, Vec<i32>))
        requires
            self.wf(),
            bb.wf(),
            race.wf(),
        ensures
            r.0 == self.head_of(*bb),
            r.0 < self.config.output_buckets,
            r.1@.len() == self.config.hidden2,
            forall|n: int| 0 <= n < r.1@.len() ==> #[trigger] r.1@[n] == self.sum_at(*bb, *acc, n),
            self.sums_fit() ==> forall|n: int|
                0 <= n < r.1@.len() ==> #[trigger] r.1@[n] == self.exact_sum(*bb, *acc, n),
    {
        proof {
            crate::phase::lemma_barrels_popcount(*bb, Player::White);
            crate::phase::lemma_barrels_popcount(*bb, Player::Black);
            lemma_sizes(self.config);
        }
        let bucket: usize = self.config.output_bucket(bb);
        let h2: usize = self.config.hidden2;
        let pad: usize = self.fc2_in_pad;
        let input = self.fc2_input(bb, acc, race);
        let mut sums: Vec<i32> = Vec::new();
        let mut n: usize = 0;
        while n < h2
            invariant
                self.wf(),
                h2 == self.config.hidden2,
                h2 <= 128,
                pad == self.fc2_in_pad,
                pad <= 1072,
                bucket == self.head_of(*bb),
                bucket < self.config.output_buckets,
                bucket <= 24,
                input@ == self.input_of(*bb, *acc),
                input@.len() == pad,
                forall|k: int| 0 <= k < input@.len() ==> #[trigger] input@[k] > i16::MIN,
                forall|k: int| 0 <= k < input@.len() ==> input_fits(#[trigger] input@[k], k, self.config.hidden1 as int),
                n <= h2,
                sums@.len() == n,
                forall|m: int| 0 <= m < n ==> #[trigger] sums@[m] == self.sum_at(*bb, *acc, m),
                self.sums_fit() ==> forall|m: int|
                    0 <= m < n ==> #[trigger] sums@[m] == self.exact_sum(*bb, *acc, m),
            decreases h2 - n,
        {
            proof {
                lemma_small_product(bucket as int, 24, h2 as int, 128);
                lemma_row_end(bucket as int, self.config.output_buckets as int, h2 as int);
                lemma_small_product(bucket * h2 + n, 3200, pad as int, 1072);
                lemma_row_end(bucket * h2 + n, self.config.output_buckets * h2, pad as int);
            }
            let row: usize = bucket * h2 + n;
            sums.push(self.row_sum(&input, row * pad));
            proof {
                if self.sums_fit() {
                    lemma_dot_fits(
                        input@,
                        self.fc2_weight_q@,
                        row * pad,
                        self.config.hidden1 as int,
                        pad as nat,
                    );
                    lemma_wrap32_small(self.exact_sum(*bb, *acc, n as int));
                }
            }
            n = n + 1;
        }
        (bucket, sums)
    }
}

/// A clipped sum, or a dense input.
pub open spec fn input_fits(x: i16, k: int, h: int) -> bool {
    if k < 2 * h {
        0 <= x <= IN_CLIP
    } else {
        -128 <= x <= 128
    }
}

/// The products stay within 32 bits.
proof fn lemma_dot_fits(input: Seq<i16>, w: Seq<i16>, at: int, h: int, n: nat)
    requires
        0 <= h <= 112,
        n <= 2 * h + 48,
        n <= input.len(),
        0 <= at,
        at + n <= w.len(),
        forall|k: int| 0 <= k < input.len() ==> input_fits(#[trigger] input[k], k, h),
        forall|i: int| 0 <= i < w.len() ==> -W2_LIMIT <= #[trigger] w[i] <= W2_LIMIT,
    ensures
        -(if n <= 2 * h { n as int } else { 2 * h }) * 9_216_000 - (if n <= 2 * h { 0 } else { n - 2 * h }) * 393_216
            <= dot_below(input, w, at, n) <= (if n <= 2 * h { n as int } else { 2 * h }) * 9_216_000 + (if n <= 2 * h {
            0
        } else {
            n - 2 * h
        }) * 393_216,
    decreases n,
{
    if n > 0 {
        lemma_dot_fits(input, w, at, h, (n - 1) as nat);
        let x = input[n - 1] as int;
        let y = w[at + n - 1] as int;
        assert(input_fits(input[n - 1], n - 1, h));
        assert(-9_216_000 <= x * y <= 9_216_000) by (nonlinear_arith)
            requires
                -3000 <= x <= 3000,
                -3072 <= y <= 3072,
        ;
        if n > 2 * h {
            assert(-393_216 <= x * y <= 393_216) by (nonlinear_arith)
                requires
                    -128 <= x <= 128,
                    -3072 <= y <= 3072,
            ;
        }
    }
}

proof fn lemma_sixteen(input: Seq<i16>, w: Seq<i16>, at: int, c: int, a: Seq<i16>, b: Seq<i16>, d: Seq<i32>)
    requires
        c >= 0,
        forall|i: int| 0 <= i < 16 ==> #[trigger] a[i] == input[c + i],
        forall|i: int| 0 <= i < 16 ==> #[trigger] b[i] == w[at + c + i],
        forall|i: int| 0 <= i < 8 ==> #[trigger] d[i] == a[2 * i] * b[2 * i] + a[2 * i + 1] * b[2 * i + 1],
    ensures
        dot_below(input, w, at, (c + 16) as nat) == dot_below(input, w, at, c as nat) + d[0] + d[1] + d[2] + d[3] + d[4]
            + d[5] + d[6] + d[7],
{
    let p = |i: int| a[i] * b[i];
    assert forall|i: int| 0 <= i < 16 implies dot_below(input, w, at, (c + i + 1) as nat) == dot_below(
        input,
        w,
        at,
        (c + i) as nat,
    ) + #[trigger] p(i) by {
        assert(a[i] == input[c + i]);
        assert(b[i] == w[at + c + i]);
    }
    assert(p(0) == a[0] * b[0] && p(1) == a[1] * b[1] && p(2) == a[2] * b[2] && p(3) == a[3] * b[3]);
    assert(p(4) == a[4] * b[4] && p(5) == a[5] * b[5] && p(6) == a[6] * b[6] && p(7) == a[7] * b[7]);
    assert(p(8) == a[8] * b[8] && p(9) == a[9] * b[9] && p(10) == a[10] * b[10] && p(11) == a[11] * b[11]);
    assert(p(12) == a[12] * b[12] && p(13) == a[13] * b[13] && p(14) == a[14] * b[14] && p(15) == a[15] * b[15]);
    assert(d[0] == p(0) + p(1) && d[1] == p(2) + p(3) && d[2] == p(4) + p(5) && d[3] == p(6) + p(7));
    assert(d[4] == p(8) + p(9) && d[5] == p(10) + p(11) && d[6] == p(12) + p(13) && d[7] == p(14) + p(15));
}

proof fn lemma_wrap_eight(exact: Seq<int>, lanes: Seq<i32>)
    requires
        exact.len() == 8,
        forall|i: int| 0 <= i < 8 ==> #[trigger] lanes[i] == wrap32(exact[i]),
    ensures
        wrap32(lanes[0] + lanes[1] + lanes[2] + lanes[3] + lanes[4] + lanes[5] + lanes[6] + lanes[7]) == wrap32(
            exact[0] + exact[1] + exact[2] + exact[3] + exact[4] + exact[5] + exact[6] + exact[7],
        ),
{
    lemma_wrap_step(exact, lanes, 0);
    lemma_wrap_step(exact, lanes, 1);
    lemma_wrap_step(exact, lanes, 2);
    lemma_wrap_step(exact, lanes, 3);
    lemma_wrap_step(exact, lanes, 4);
    lemma_wrap_step(exact, lanes, 5);
    lemma_wrap_step(exact, lanes, 6);
    lemma_wrap_step(exact, lanes, 7);
}

/// The sum with the first `k` lanes exact and the others wrapped.
spec fn lanes_from(exact: Seq<int>, lanes: Seq<i32>, k: int) -> int {
    let t = |i: int| if i < k { exact[i] } else { lanes[i] as int };
    t(0) + t(1) + t(2) + t(3) + t(4) + t(5) + t(6) + t(7)
}

proof fn lemma_wrap_step(exact: Seq<int>, lanes: Seq<i32>, k: int)
    requires
        0 <= k < 8,
        lanes[k] == wrap32(exact[k]),
    ensures
        wrap32(lanes_from(exact, lanes, k)) == wrap32(lanes_from(exact, lanes, k + 1)),
{
    let rest = lanes_from(exact, lanes, k) - lanes[k];
    assert(k == 0 || k == 1 || k == 2 || k == 3 || k == 4 || k == 5 || k == 6 || k == 7);
    assert(lanes_from(exact, lanes, k + 1) == rest + exact[k]);
    lemma_wrap32_sum(rest, exact[k]);
}

} // verus!
