//! Training rows: positions from one-hot planes, and their features in batches.
use vstd::prelude::*;
use crate::bitboard::BitBoard;
use crate::bits::{count_ones, group_has, lemma_mask_ext, on, popcount};
use crate::board::Player;
use crate::features::{FeatureSet, NnueConfig, MAX_ACTIVE_FEATURES};
use crate::phase::lemma_barrels_popcount;
use crate::play::at_most_one;
use crate::squares::{bit, on_board, BARRELS_PER_PLAYER, NUM_SQUARES};

verus! {

/// The planes of a row: four flags per square, for white barrel, black barrel,
/// white pail and black pail.
pub const ROW_PLANES: usize = 144;

/// The length of a row: the planes and the relational inputs.
pub const ROW_SIZE: usize = 164;

/// The squares below `n` whose flag of a kind is set.
pub open spec fn flagged(planes: Seq<bool>, kind: int, n: int, s: int) -> bool {
    0 <= s < n && planes[s * 4 + kind]
}

/// The mask holds the last flagged square below `n`, if any.
pub open spec fn last_flagged(m: u64, planes: Seq<bool>, kind: int, n: int) -> bool {
    forall|s: int| #[trigger]
        on(m, s) == (flagged(planes, kind, n, s) && forall|t: int| s < t < n ==> !(#[trigger] flagged(planes, kind, n, t)))
}

/// The barrels still in hand.
pub open spec fn left_in_hand(on_board: int, scored: int) -> int {
    if on_board + scored < 4 {
        4 - on_board - scored
    } else {
        0
    }
}

/// Rebuilds a position from the planes of a training row and its scores. A
/// second pail of a colour replaces the first. The counters start at zero.
pub fn bitboard_from_dense164(planes: &Vec<bool>, white_scored: u8, black_scored: u8, black_to_move: bool) -> (r:
    BitBoard)
    requires
        planes@.len() == 144,
    ensures
        forall|s: int| #[trigger] on(r.white_barrels, s) == flagged(planes@, 0, 36, s),
        forall|s: int| #[trigger] on(r.black_barrels, s) == flagged(planes@, 1, 36, s),
        last_flagged(r.white_pail, planes@, 2, 36),
        last_flagged(r.black_pail, planes@, 3, 36),
        r.occupied == (r.white_barrels | r.black_barrels | r.white_pail | r.black_pail),
        r.white_pail_placed == (r.white_pail != 0),
        r.black_pail_placed == (r.black_pail != 0),
        r.white_scored == white_scored,
        r.black_scored == black_scored,
        r.current_player == if black_to_move {
            Player::Black
        } else {
            Player::White
        },
        r.white_barrels_off_board == left_in_hand(popcount(r.white_barrels) as int, white_scored as int),
        r.black_barrels_off_board == left_in_hand(popcount(r.black_barrels) as int, black_scored as int),
        !r.awaiting_barrel,
        r.move_count == 0,
        r.halfmove_clock == 0,
{
    broadcast use group_has;

    let mut bb = BitBoard::new();
    let mut white_barrels: u64 = 0;
    let mut black_barrels: u64 = 0;
    let mut white_pail: u64 = 0;
    let mut black_pail: u64 = 0;
    let mut sq: usize = 0;
    while sq < NUM_SQUARES
        invariant
            sq <= 36,
            planes@.len() == 144,
            forall|s: int| #[trigger] on(white_barrels, s) == flagged(planes@, 0, sq as int, s),
            forall|s: int| #[trigger] on(black_barrels, s) == flagged(planes@, 1, sq as int, s),
            last_flagged(white_pail, planes@, 2, sq as int),
            last_flagged(black_pail, planes@, 3, sq as int),
        decreases 36 - sq,
    {
        broadcast use group_has;

        let base: usize = sq * 4;
        let ghost wp = white_pail;
        let ghost bp = black_pail;
        if planes[base] {
            white_barrels = white_barrels | bit(sq);
        }
        if planes[base + 1] {
            black_barrels = black_barrels | bit(sq);
        }
        if planes[base + 2] {
            white_pail = bit(sq);
        }
        if planes[base + 3] {
            black_pail = bit(sq);
        }
        proof {
            lemma_last_flagged(wp, white_pail, planes@, 2, sq as int);
            lemma_last_flagged(bp, black_pail, planes@, 3, sq as int);
        }
        sq = sq + 1;
    }
    bb.white_barrels = white_barrels;
    bb.black_barrels = black_barrels;
    bb.white_pail = white_pail;
    bb.black_pail = black_pail;
    bb.occupied = white_barrels | black_barrels | white_pail | black_pail;
    bb.white_pail_placed = white_pail != 0;
    bb.black_pail_placed = black_pail != 0;
    bb.white_scored = white_scored;
    bb.black_scored = black_scored;
    bb.current_player = if black_to_move { Player::Black } else { Player::White };
    let w_on: u8 = count_ones(white_barrels) as u8;
    let b_on: u8 = count_ones(black_barrels) as u8;
    bb.white_barrels_off_board = (BARRELS_PER_PLAYER as u8).saturating_sub(w_on.saturating_add(white_scored));
    bb.black_barrels_off_board = (BARRELS_PER_PLAYER as u8).saturating_sub(b_on.saturating_add(black_scored));
    bb
}

proof fn lemma_last_flagged(before: u64, after: u64, planes: Seq<bool>, kind: int, n: int)
    requires
        last_flagged(before, planes, kind, n),
        0 <= n < 36,
        planes[n * 4 + kind] ==> after == 1u64 << (n as u64),
        !planes[n * 4 + kind] ==> after == before,
    ensures
        last_flagged(after, planes, kind, n + 1),
{
    broadcast use group_has;

    let set = planes[n * 4 + kind];
    assert forall|s: int| #[trigger] on(after, s) == (flagged(planes, kind, n + 1, s) && forall|t: int|
        s < t < n + 1 ==> !(#[trigger] flagged(planes, kind, n + 1, t))) by {
        if set {
            assert(on(1u64 << (n as u64), s) == (s == n));
            assert(flagged(planes, kind, n + 1, n));
        } else {
            assert(!flagged(planes, kind, n + 1, n));
            assert(on(before, s) == (flagged(planes, kind, n, s) && forall|t: int|
                s < t < n ==> !(#[trigger] flagged(planes, kind, n, t))));
            assert forall|t: int| 0 <= t < n implies flagged(planes, kind, n + 1, t) == flagged(planes, kind, n, t) by {}
            if flagged(planes, kind, n, s) && forall|t: int| s < t < n ==> !(#[trigger] flagged(planes, kind, n, t)) {
                assert forall|t: int| s < t < n + 1 implies !(#[trigger] flagged(planes, kind, n + 1, t)) by {
                    if t < n {
                        assert(!flagged(planes, kind, n, t));
                    }
                }
            }
            if flagged(planes, kind, n + 1, s) && forall|t: int|
                s < t < n + 1 ==> !(#[trigger] flagged(planes, kind, n + 1, t)) {
                assert forall|t: int| s < t < n implies !(#[trigger] flagged(planes, kind, n, t)) by {
                    assert(!flagged(planes, kind, n + 1, t));
                }
            }
        }
    }
}

/// The planes are those of a position.
pub open spec fn planes_of(planes: Seq<bool>, bb: BitBoard) -> bool {
    &&& planes.len() == 144
    &&& forall|s: int|
        on_board(s) ==> {
            &&& #[trigger] planes[s * 4] == on(bb.white_barrels, s)
            &&& planes[s * 4 + 1] == on(bb.black_barrels, s)
            &&& planes[s * 4 + 2] == on(bb.white_pail, s)
            &&& planes[s * 4 + 3] == on(bb.black_pail, s)
        }
}

/// A row made from a game position gives its pieces, scores, hands and side to
/// move back.
pub proof fn law_row_round_trip(bb: BitBoard, planes: Seq<bool>, r: BitBoard)
    requires
        bb.wf(),
        planes_of(planes, bb),
        forall|s: int| #[trigger] on(r.white_barrels, s) == flagged(planes, 0, 36, s),
        forall|s: int| #[trigger] on(r.black_barrels, s) == flagged(planes, 1, 36, s),
        last_flagged(r.white_pail, planes, 2, 36),
        last_flagged(r.black_pail, planes, 3, 36),
        r.white_barrels_off_board == left_in_hand(popcount(r.white_barrels) as int, bb.white_scored as int),
        r.black_barrels_off_board == left_in_hand(popcount(r.black_barrels) as int, bb.black_scored as int),
    ensures
        r.white_barrels == bb.white_barrels,
        r.black_barrels == bb.black_barrels,
        r.white_pail == bb.white_pail,
        r.black_pail == bb.black_pail,
        r.white_barrels_off_board == bb.white_barrels_off_board,
        r.black_barrels_off_board == bb.black_barrels_off_board,
{
    assert forall|s: int| 0 <= s < 64 implies on(r.white_barrels, s) == on(bb.white_barrels, s) by {
        bb.lemma_square(s);
        if on_board(s) {
            assert(planes[s * 4] == on(bb.white_barrels, s));
        }
    }
    lemma_mask_ext(r.white_barrels, bb.white_barrels);
    assert forall|s: int| 0 <= s < 64 implies on(r.black_barrels, s) == on(bb.black_barrels, s) by {
        bb.lemma_square(s);
        if on_board(s) {
            assert(planes[s * 4] == on(bb.white_barrels, s));
        }
    }
    lemma_mask_ext(r.black_barrels, bb.black_barrels);
    lemma_pail_back(bb, bb.white_pail, planes, 2, r.white_pail);
    lemma_pail_back(bb, bb.black_pail, planes, 3, r.black_pail);
    lemma_barrels_popcount(bb, Player::White);
    lemma_barrels_popcount(bb, Player::Black);
}

proof fn lemma_pail_back(bb: BitBoard, m: u64, planes: Seq<bool>, kind: int, r: u64)
    requires
        bb.wf(),
        planes_of(planes, bb),
        kind == 2 && m == bb.white_pail || kind == 3 && m == bb.black_pail,
        last_flagged(r, planes, kind, 36),
    ensures
        r == m,
{
    broadcast use group_has;

    assert(at_most_one(m));
    assert forall|s: int| 0 <= s < 36 implies flagged(planes, kind, 36, s) == on(m, s) by {
        assert(planes[s * 4] == on(bb.white_barrels, s));
    }
    assert forall|s: int| 0 <= s < 64 implies on(r, s) == on(m, s) by {
        bb.lemma_square(s);
        if on(m, s) {
            assert forall|t: int| s < t < 36 implies !(#[trigger] flagged(planes, kind, 36, t)) by {
                let q = choose|q: u64| q < 36 && m == #[trigger] (1u64 << q);
                assert(on(1u64 << q, s) == (s == q));
                assert(on(1u64 << q, t) == (t == q));
            }
        }
    }
    lemma_mask_ext(r, m);
}

/// Why a batch of rows is refused.
#[derive(Clone, Copy, PartialEq, Eq, Debug)]
pub enum BatchError {
    /// Not 164 numbers for every label.
    Length,
    /// No feature set of that name.
    UnknownFeatureSet,
}

/// The features of a batch of rows: indices one after the other, where each
/// row's begin, and each row's output head.
pub struct SparseBatch {
    pub white_indices: Vec<i64>,
    pub white_offsets: Vec<i64>,
    pub black_indices: Vec<i64>,
    pub black_offsets: Vec<i64>,
    pub buckets: Vec<i64>,
}

/// The shape that a batch is decoded for, if the batch is whole and the feature
/// set known.
pub fn batch_config(
    numbers: usize,
    labels: usize,
    feature_set: &str,
    mirror_black: bool,
    dense_size: usize,
    output_buckets: usize,
) -> (r: Result<NnueConfig, BatchError>)
    ensures
        r == if numbers != labels * 164 {
            Err::<NnueConfig, BatchError>(BatchError::Length)
        } else if feature_set@ == "halfpail"@ {
            Ok(
                NnueConfig {
                    feature_set: FeatureSet::HalfPail,
                    mirror_black,
                    dense_size,
                    hidden1: 0,
                    hidden2: 0,
                    output_buckets,
                },
            )
        } else if feature_set@ == "plain"@ {
            Ok(
                NnueConfig {
                    feature_set: FeatureSet::Plain,
                    mirror_black,
                    dense_size,
                    hidden1: 0,
                    hidden2: 0,
                    output_buckets,
                },
            )
        } else {
            Err(BatchError::UnknownFeatureSet)
        },
{
    if numbers % ROW_SIZE != 0 || numbers / ROW_SIZE != labels {
        return Err(BatchError::Length);
    }
    match FeatureSet::from_name(feature_set) {
        Some(set) => Ok(
            NnueConfig { feature_set: set, mirror_black, dense_size, hidden1: 0, hidden2: 0, output_buckets },
        ),
        None => Err(BatchError::UnknownFeatureSet),
    }
}

/// All features of the first `n` boards for a side, one board after the other.
pub open spec fn features_before(config: NnueConfig, boards: Seq<BitBoard>, p: Player, n: int) -> Seq<int>
    decreases n,
{
    if n <= 0 {
        Seq::empty()
    } else {
        features_before(config, boards, p, n - 1) + config.features_of(boards[n - 1], p)
    }
}

/// The indices are those features, and the offsets say where each board's
/// begin.
pub open spec fn listed(
    config: NnueConfig,
    boards: Seq<BitBoard>,
    p: Player,
    n: int,
    indices: Seq<i64>,
    offsets: Seq<i64>,
) -> bool {
    &&& indices.len() == features_before(config, boards, p, n).len()
    &&& forall|i: int| 0 <= i < indices.len() ==> #[trigger] indices[i] == features_before(config, boards, p, n)[i]
    &&& offsets.len() == n
    &&& forall|i: int| 0 <= i < n ==> #[trigger] offsets[i] == features_before(config, boards, p, i).len()
}

/// Appends the features of one board.
fn append_features(config: &NnueConfig, bb: &BitBoard, p: Player, indices: &mut Vec<i64>, offsets: &mut Vec<i64>, Ghost(
    boards,
): Ghost<Seq<BitBoard>>, Ghost(n): Ghost<int>)
    requires
        bb.inv(),
        NnueConfig::fits(*bb),
        0 <= n < boards.len() < 0x1000_0000,
        boards[n] == *bb,
        listed(*config, boards, p, n, old(indices)@, old(offsets)@),
        old(indices)@.len() <= 12 * n,
    ensures
        listed(*config, boards, p, n + 1, final(indices)@, final(offsets)@),
        final(indices)@.len() <= 12 * (n + 1),
{
    let ghost before = indices@;
    let ghost offs = offsets@;
    offsets.push(indices.len() as i64);
    let mut feats: [u16; MAX_ACTIVE_FEATURES] = [0; MAX_ACTIVE_FEATURES];
    let count: usize = config.active_features(bb, p, &mut feats);
    let ghost fs = config.features_of(*bb, p);
    let ghost all = features_before(*config, boards, p, n);
    let mut i: usize = 0;
    while i < count
        invariant
            i <= count <= 12,
            count == fs.len(),
            forall|k: int| 0 <= k < count ==> #[trigger] feats@[k] == fs[k],
            indices@.len() == before.len() + i,
            forall|k: int| 0 <= k < before.len() ==> #[trigger] indices@[k] == before[k],
            forall|k: int| 0 <= k < i ==> #[trigger] indices@[before.len() + k] == fs[k],
        decreases count - i,
    {
        indices.push(feats[i] as i64);
        i = i + 1;
    }
    proof {
        let more = features_before(*config, boards, p, n + 1);
        assert(more == all + fs);
        assert forall|k: int| 0 <= k < indices@.len() implies #[trigger] indices@[k] == more[k] by {
            if k >= before.len() {
                assert(indices@[before.len() + (k - before.len())] == fs[k - before.len()]);
            } else {
                assert(before[k] == all[k]);
            }
        }
        assert forall|k: int| 0 <= k < n + 1 implies #[trigger] offsets@[k] == features_before(
            *config,
            boards,
            p,
            k,
        ).len() by {
            if k < n {
                assert(offs[k] == features_before(*config, boards, p, k).len());
            }
        }
    }
}

/// Decodes a batch of boards into features for both sides and output heads.
pub fn decode_sparse_batch(boards: &Vec<BitBoard>, config: &NnueConfig) -> (r: SparseBatch)
    requires
        boards@.len() < 0x1000_0000,
        forall|i: int| 0 <= i < boards@.len() ==> (#[trigger] boards@[i]).inv() && NnueConfig::fits(boards@[i]),
    ensures
        listed(*config, boards@, Player::White, boards@.len() as int, r.white_indices@, r.white_offsets@),
        listed(*config, boards@, Player::Black, boards@.len() as int, r.black_indices@, r.black_offsets@),
        r.buckets@.len() == boards@.len(),
        forall|i: int|
            0 <= i < boards@.len() ==> #[trigger] r.buckets@[i] == if config.output_buckets >= 25 {
                boards@[i].white_scored * 5 + boards@[i].black_scored
            } else {
                0
            },
{
    let mut white_indices: Vec<i64> = Vec::new();
    let mut white_offsets: Vec<i64> = Vec::new();
    let mut black_indices: Vec<i64> = Vec::new();
    let mut black_offsets: Vec<i64> = Vec::new();
    let mut buckets: Vec<i64> = Vec::new();
    let mut i: usize = 0;
    while i < boards.len()
        invariant
            i <= boards@.len() < 0x1000_0000,
            forall|i: int| 0 <= i < boards@.len() ==> (#[trigger] boards@[i]).inv() && NnueConfig::fits(boards@[i]),
            listed(*config, boards@, Player::White, i as int, white_indices@, white_offsets@),
            listed(*config, boards@, Player::Black, i as int, black_indices@, black_offsets@),
            white_indices@.len() <= 12 * i,
            black_indices@.len() <= 12 * i,
            buckets@.len() == i,
            forall|k: int|
                0 <= k < i ==> #[trigger] buckets@[k] == if config.output_buckets >= 25 {
                    boards@[k].white_scored * 5 + boards@[k].black_scored
                } else {
                    0
                },
        decreases boards@.len() - i,
    {
        let bb: BitBoard = boards[i];
        append_features(
            config,
            &bb,
            Player::White,
            &mut white_indices,
            &mut white_offsets,
            Ghost(boards@),
            Ghost(i as int),
        );
        append_features(
            config,
            &bb,
            Player::Black,
            &mut black_indices,
            &mut black_offsets,
            Ghost(boards@),
            Ghost(i as int),
        );
        buckets.push(config.output_bucket(&bb) as i64);
        i = i + 1;
    }
    SparseBatch { white_indices, white_offsets, black_indices, black_offsets, buckets }
}

} // verus!
