//! Input features of the evaluation network.
//!
//! A feature set maps a board, seen by one side, to a few active indices.
use vstd::prelude::*;
use vstd::std_specs::bits::u64_trailing_zeros;
use crate::bitboard::BitBoard;
use crate::bits::{count_below, drop_lowest, lemma_empty, lemma_lowest, lowest, members_from, on, popcount};
use crate::board::Player;
use crate::mirror::{flip, mirror_sq};
use crate::squares::{on_board, NUM_SQUARES};

verus! {

/// Largest first hidden layer.
pub const MAX_HIDDEN1: usize = 512;

/// Largest second hidden layer.
pub const MAX_HIDDEN2: usize = 128;

/// The relational inputs.
pub const HALFPAIL_DENSE: usize = 20;

/// The relational inputs and eight more.
pub const DENSE_V2: usize = 28;

pub const MAX_DENSE: usize = 32;

/// Room for four barrels of each side and two pails, and two to spare.
pub const MAX_ACTIVE_FEATURES: usize = 12;

#[derive(Clone, Copy, PartialEq, Eq, Debug, Structural)]
pub enum FeatureSet {
    /// The own pail's square, or its absence, conditions every piece feature.
    /// Three kinds per square: own barrel, enemy barrel, enemy pail.
    HalfPail,
    /// Four kinds per square: own barrel, enemy barrel, enemy pail, own pail.
    Plain,
}

impl FeatureSet {
    pub open spec fn spec_num_features(self) -> usize {
        match self {
            FeatureSet::HalfPail => 3996,
            FeatureSet::Plain => 144,
        }
    }

    /// The name of a feature set.
    pub open spec fn spec_name(self) -> Seq<char> {
        match self {
            FeatureSet::HalfPail => "halfpail"@,
            FeatureSet::Plain => "plain"@,
        }
    }

    /// The feature set with a name.
    pub open spec fn named(name: Seq<char>) -> Option<Self> {
        if name == "halfpail"@ {
            Some(FeatureSet::HalfPail)
        } else if name == "plain"@ {
            Some(FeatureSet::Plain)
        } else {
            None
        }
    }

    pub fn from_name(name: &str) -> (r: Option<Self>)
        ensures
            r == FeatureSet::named(name@),
    {
        let given: String = name.to_owned();
        if given == "halfpail".to_owned() {
            Some(FeatureSet::HalfPail)
        } else if given == "plain".to_owned() {
            Some(FeatureSet::Plain)
        } else {
            None
        }
    }

    pub fn name(self) -> (r: &'static str)
        ensures
            r@ == self.spec_name(),
    {
        match self {
            FeatureSet::HalfPail => "halfpail",
            FeatureSet::Plain => "plain",
        }
    }

    /// The number of feature indices.
    #[verifier::when_used_as_spec(spec_num_features)]
    pub fn num_features(self) -> (r: usize)
        ensures
            r == self.spec_num_features(),
    {
        match self {
            FeatureSet::HalfPail => (NUM_SQUARES + 1) * NUM_SQUARES * 3,
            FeatureSet::Plain => NUM_SQUARES * 4,
        }
    }
}

/// A feature set is found by its name.
pub proof fn law_feature_set_names(s: FeatureSet)
    ensures
        FeatureSet::named(s.spec_name()) == Some(s),
{
    reveal_strlit("halfpail");
    reveal_strlit("plain");
    assert("halfpail"@.len() != "plain"@.len());
}

pub open spec fn halfpail_index(bucket: int, sq: int, kind: int) -> int {
    bucket * 108 + sq * 3 + kind
}

/// The index of a piece kind on a square within a pail bucket.
pub fn halfpail_feature_index(bucket: usize, sq: usize, piece_type: usize) -> (r: u16)
    requires
        bucket <= 36,
        sq < 36,
        piece_type < 3,
    ensures
        r == halfpail_index(bucket as int, sq as int, piece_type as int),
        r < 3996,
{
    (bucket * 108 + sq * 3 + piece_type) as u16
}

/// The shape of a network.
#[derive(Clone, Copy, Debug)]
pub struct NnueConfig {
    pub feature_set: FeatureSet,
    /// Black sees the board with its rows flipped.
    pub mirror_black: bool,
    /// 0, 20 or 28 dense inputs beside the features.
    pub dense_size: usize,
    pub hidden1: usize,
    pub hidden2: usize,
    /// 1, or 25 for one output head per pair of scores.
    pub output_buckets: usize,
}

/// Why a shape is refused.
#[derive(Clone, Copy, PartialEq, Eq, Debug, Structural)]
pub enum ConfigError {
    /// Not a multiple of 16, or too large.
    Hidden1,
    /// Not a multiple of 8, or too large.
    Hidden2,
    /// Not 0, 20 or 28.
    DenseSize,
    /// Not 1 or 25.
    OutputBuckets,
}

/// The square as a side sees it.
pub open spec fn seen(flipped: bool, s: int) -> int {
    if flipped {
        flip(s)
    } else {
        s
    }
}

/// The features of `kind` for the squares of a list.
pub open spec fn kind_features(squares: Seq<int>, flipped: bool, scale: int, base: int) -> Seq<int> {
    Seq::new(squares.len(), |i: int| base + seen(flipped, squares[i]) * scale)
}

impl NnueConfig {
    pub open spec fn flips(&self, persp: Player) -> bool {
        self.mirror_black && persp == Player::Black
    }

    /// The pail bucket of a side: its pail's square as it sees it, or 36.
    pub open spec fn bucket_of(&self, bb: BitBoard, persp: Player) -> int {
        let m = bb.pail_mask_of(persp);
        if m == 0 {
            36
        } else {
            seen(self.flips(persp), u64_trailing_zeros(m) as int)
        }
    }

    /// The active features of a side: own barrels, enemy barrels, enemy pail,
    /// and in the plain set the own pail, each kind by ascending square.
    pub open spec fn features_of(&self, bb: BitBoard, persp: Player) -> Seq<int> {
        let f = self.flips(persp);
        let own = members_from(bb.barrels_of(persp), 0);
        let enemy = members_from(bb.barrels_of(persp.opponent()), 0);
        let enemy_pail = first_member(bb.pail_mask_of(persp.opponent()));
        let own_pail = first_member(bb.pail_mask_of(persp));
        match self.feature_set {
            FeatureSet::HalfPail => {
                let b = self.bucket_of(bb, persp) * 108;
                kind_features(own, f, 3, b) + kind_features(enemy, f, 3, b + 1) + kind_features(enemy_pail, f, 3, b + 2)
            },
            FeatureSet::Plain => kind_features(own, f, 4, 0) + kind_features(enemy, f, 4, 1) + kind_features(
                enemy_pail,
                f,
                4,
                2,
            ) + kind_features(own_pail, f, 4, 3),
        }
    }

    /// The shape is one the evaluator supports.
    pub open spec fn valid(&self) -> bool {
        &&& self.hidden1 <= 512 && self.hidden1 % 16 == 0
        &&& self.hidden2 <= 128 && self.hidden2 % 8 == 0
        &&& self.dense_size == 0 || self.dense_size == 20 || self.dense_size == 28
        &&& self.output_buckets == 1 || self.output_buckets == 25
    }

    /// The first fault of the shape, if any.
    pub open spec fn fault(&self) -> Option<ConfigError> {
        if !(self.hidden1 <= 512 && self.hidden1 % 16 == 0) {
            Some(ConfigError::Hidden1)
        } else if !(self.hidden2 <= 128 && self.hidden2 % 8 == 0) {
            Some(ConfigError::Hidden2)
        } else if !(self.dense_size == 0 || self.dense_size == 20 || self.dense_size == 28) {
            Some(ConfigError::DenseSize)
        } else if !(self.output_buckets == 1 || self.output_buckets == 25) {
            Some(ConfigError::OutputBuckets)
        } else {
            None
        }
    }

    /// Checks the shape; the first fault is reported.
    pub fn validate(&self) -> (r: Result<(), ConfigError>)
        ensures
            r == (match self.fault() {
                Some(e) => Err(e),
                None => Ok(()),
            }),
            r is Ok <==> self.valid(),
    {
        if self.hidden1 > MAX_HIDDEN1 || self.hidden1 % 16 != 0 {
            return Err(ConfigError::Hidden1);
        }
        if self.hidden2 > MAX_HIDDEN2 || self.hidden2 % 8 != 0 {
            return Err(ConfigError::Hidden2);
        }
        if self.dense_size != 0 && self.dense_size != HALFPAIL_DENSE && self.dense_size != DENSE_V2 {
            return Err(ConfigError::DenseSize);
        }
        if self.output_buckets != 1 && self.output_buckets != 25 {
            return Err(ConfigError::OutputBuckets);
        }
        Ok(())
    }

    fn see(&self, persp: Player, s: usize) -> (r: usize)
        requires
            s < 36,
        ensures
            r == seen(self.flips(persp), s as int),
            r < 36,
    {
        if self.mirror_black && persp == Player::Black {
            mirror_sq(s)
        } else {
            s
        }
    }

    /// Appends the features of one kind for the members of a mask.
    fn push_kind(
        &self,
        persp: Player,
        mask: u64,
        scale: usize,
        base: usize,
        out: &mut [u16; MAX_ACTIVE_FEATURES],
        start: usize,
    ) -> (n: usize)
        requires
            forall|s: int| #[trigger] on(mask, s) ==> on_board(s),
            start + popcount(mask) <= 12,
            scale <= 4,
            base <= 3990,
        ensures
            n == start + popcount(mask),
            n <= 12,
            forall|i: int| 0 <= i < start ==> final(out)@[i] == old(out)@[i],
            ({
                let fs = kind_features(members_from(mask, 0), self.flips(persp), scale as int, base as int);
                &&& fs.len() == popcount(mask)
                &&& forall|i: int| 0 <= i < fs.len() ==> #[trigger] final(out)@[start + i] == fs[i]
            }),
    {
        let mut n: usize = start;
        let mut m: u64 = mask;
        let ghost f = self.flips(persp);
        let ghost all = members_from(mask, 0);
        proof {
            lemma_members_len(mask, 0);
        }
        while m != 0
            invariant
                forall|s: int| #[trigger] on(mask, s) ==> on_board(s),
                forall|s: int| #[trigger] on(m, s) ==> on(mask, s),
                f == self.flips(persp),
                all == members_from(mask, 0),
                all.len() == popcount(mask),
                start + popcount(mask) <= 12,
                scale <= 4,
                base <= 3990,
                start <= n <= 12,
                n - start + popcount(m) == popcount(mask),
                all.subrange(n - start, all.len() as int) == members_from(m, 0),
                forall|i: int| 0 <= i < start ==> out@[i] == old(out)@[i],
                forall|i: int|
                    0 <= i < n - start ==> #[trigger] out@[start + i] == base + seen(f, all[i]) * scale,
            decreases m,
        {
            let s: usize = lowest(m);
            let ghost m0 = m;
            let ghost n0 = n;
            proof {
                lemma_lowest(m);
                assert(on(mask, s as int));
                lemma_members_lowest(m);
                crate::bits::lemma_count_remove(m, m & (m - 1) as u64, s as int, 64);
                assert(all.subrange(n - start, all.len() as int)[0] == s);
                assert(all[n - start] == s);
            }
            let t: usize = self.see(persp, s);
            assert(t * scale <= 36 * 4) by (nonlinear_arith)
                requires
                    t < 36,
                    scale <= 4,
            ;
            out[n] = (base + t * scale) as u16;
            n = n + 1;
            m = drop_lowest(m);
            proof {
                assert(all.subrange(n - start, all.len() as int) =~= all.subrange(n0 - start, all.len() as int).drop_first());
                assert(members_from(m0, 0).drop_first() =~= members_from(m, 0));
            }
        }
        proof {
            lemma_empty(m);
            crate::bits::lemma_count_empty(m, 64);
        }
        n
    }
}

/// The mask of the least member, empty for an empty mask.
fn least_only(m: u64) -> (r: u64)
    requires
        forall|s: int| #[trigger] on(m, s) ==> on_board(s),
    ensures
        forall|s: int| #[trigger] on(r, s) ==> on_board(s),
        popcount(r) == (if m == 0 { 0nat } else { 1nat }),
        members_from(r, 0) == first_member(m),
{
    broadcast use crate::bits::group_has;

    if m == 0 {
        proof {
            crate::bits::lemma_count_empty(0, 64);
            lemma_members_skip(0, 0, 64);
        }
        return 0;
    }
    let s: usize = lowest(m);
    let r: u64 = crate::squares::bit(s);
    proof {
        assert(on(r, s as int));
        assert forall|t: int| #[trigger] on(0u64, t) == (on(r, t) && t != s) by {}
        crate::bits::lemma_count_remove(r, 0, s as int, 64);
        crate::bits::lemma_count_empty(0, 64);
        lemma_members_skip(r, 0, s as int);
        lemma_members_skip(r, s + 1, 64);
        assert(members_from(r, 0) =~= seq![s as int]);
    }
    r
}

impl NnueConfig {
    /// The boards whose features fit.
    pub open spec fn fits(bb: BitBoard) -> bool {
        popcount(bb.white_barrels) + popcount(bb.black_barrels) + 2 <= 12
    }

    fn halfpail_features(&self, bb: &BitBoard, persp: Player, out: &mut [u16; MAX_ACTIVE_FEATURES]) -> (n: usize)
        requires
            bb.inv(),
            NnueConfig::fits(*bb),
            self.feature_set == FeatureSet::HalfPail,
        ensures
            wrote(final(out)@, n as int, self.features_of(*bb, persp), 3996),
    {
        let enemy: Player = persp.opponent();
        let own_b: u64 = bb.barrels(persp);
        let opp_b: u64 = bb.barrels(enemy);
        let own_p: u64 = bb.pail(persp);
        proof {
            lemma_side_on_board(*bb, persp);
            lemma_side_on_board(*bb, enemy);
        }
        let opp_pail: u64 = least_only(bb.pail(enemy));
        let bucket: usize = if own_p != 0 {
            let q: usize = lowest(own_p);
            assert(on_board(q as int));
            self.see(persp, q)
        } else {
            NUM_SQUARES
        };
        let base: usize = bucket * 108;
        let n1: usize = self.push_kind(persp, own_b, 3, base, out, 0);
        let ghost o1 = out@;
        let n2: usize = self.push_kind(persp, opp_b, 3, base + 1, out, n1);
        let ghost o2 = out@;
        let n3: usize = self.push_kind(persp, opp_pail, 3, base + 2, out, n2);
        proof {
            let f = self.flips(persp);
            let a = kind_features(members_from(own_b, 0), f, 3, base as int);
            let b = kind_features(members_from(opp_b, 0), f, 3, base + 1);
            let c = kind_features(members_from(opp_pail, 0), f, 3, base + 2);
            lemma_kind_bounds(own_b, f, 3, base as int);
            lemma_kind_bounds(opp_b, f, 3, base + 1);
            lemma_kind_bounds(opp_pail, f, 3, base + 2);
            lemma_wrote(o1, o1, 0, n1 as int, Seq::empty(), a, 3996);
            assert(Seq::<int>::empty() + a =~= a);
            lemma_wrote(o1, o2, n1 as int, n2 as int, a, b, 3996);
            lemma_wrote(o2, out@, n2 as int, n3 as int, a + b, c, 3996);
            assert(self.features_of(*bb, persp) =~= a + b + c);
        }
        n3
    }

    fn plain_features(&self, bb: &BitBoard, persp: Player, out: &mut [u16; MAX_ACTIVE_FEATURES]) -> (n: usize)
        requires
            bb.inv(),
            NnueConfig::fits(*bb),
            self.feature_set == FeatureSet::Plain,
        ensures
            wrote(final(out)@, n as int, self.features_of(*bb, persp), 144),
    {
        let enemy: Player = persp.opponent();
        let own_b: u64 = bb.barrels(persp);
        let opp_b: u64 = bb.barrels(enemy);
        proof {
            lemma_side_on_board(*bb, persp);
            lemma_side_on_board(*bb, enemy);
        }
        let own_pail: u64 = least_only(bb.pail(persp));
        let opp_pail: u64 = least_only(bb.pail(enemy));
        let n1: usize = self.push_kind(persp, own_b, 4, 0, out, 0);
        let ghost o1 = out@;
        let n2: usize = self.push_kind(persp, opp_b, 4, 1, out, n1);
        let ghost o2 = out@;
        let n3: usize = self.push_kind(persp, opp_pail, 4, 2, out, n2);
        let ghost o3 = out@;
        let n4: usize = self.push_kind(persp, own_pail, 4, 3, out, n3);
        proof {
            let f = self.flips(persp);
            let a = kind_features(members_from(own_b, 0), f, 4, 0);
            let b = kind_features(members_from(opp_b, 0), f, 4, 1);
            let c = kind_features(members_from(opp_pail, 0), f, 4, 2);
            let d = kind_features(members_from(own_pail, 0), f, 4, 3);
            lemma_kind_bounds(own_b, f, 4, 0);
            lemma_kind_bounds(opp_b, f, 4, 1);
            lemma_kind_bounds(opp_pail, f, 4, 2);
            lemma_kind_bounds(own_pail, f, 4, 3);
            lemma_wrote(o1, o1, 0, n1 as int, Seq::empty(), a, 144);
            assert(Seq::<int>::empty() + a =~= a);
            lemma_wrote(o1, o2, n1 as int, n2 as int, a, b, 144);
            lemma_wrote(o2, o3, n2 as int, n3 as int, a + b, c, 144);
            lemma_wrote(o3, out@, n3 as int, n4 as int, a + b + c, d, 144);
            assert(self.features_of(*bb, persp) =~= a + b + c + d);
        }
        n4
    }

    /// Writes the active features of a side and returns their number.
    pub fn active_features(&self, bb: &BitBoard, persp: Player, out: &mut [u16; MAX_ACTIVE_FEATURES]) -> (n: usize)
        requires
            bb.inv(),
            NnueConfig::fits(*bb),
        ensures
            wrote(
                final(out)@,
                n as int,
                self.features_of(*bb, persp),
                self.feature_set.num_features() as int,
            ),
    {
        match self.feature_set {
            FeatureSet::HalfPail => self.halfpail_features(bb, persp, out),
            FeatureSet::Plain => self.plain_features(bb, persp, out),
        }
    }

    /// The output head of a position.
    pub fn output_bucket(&self, bb: &BitBoard) -> (r: usize)
        ensures
            r == (if self.output_buckets >= 25 { bb.white_scored * 5 + bb.black_scored } else { 0 }),
    {
        if self.output_buckets >= 25 {
            bb.white_scored as usize * 5 + bb.black_scored as usize
        } else {
            0
        }
    }

    /// The side's pail bucket differs between two positions.
    pub fn bucket_changed(&self, before: &BitBoard, after: &BitBoard, persp: Player) -> (r: bool)
        ensures
            r == (self.feature_set == FeatureSet::HalfPail && before.pail_mask_of(persp) != after.pail_mask_of(persp)),
    {
        if self.feature_set != FeatureSet::HalfPail {
            return false;
        }
        before.pail(persp) != after.pail(persp)
    }
}

/// The first `n` entries are the features `fs`, all below `limit`.
pub open spec fn wrote(out: Seq<u16>, n: int, fs: Seq<int>, limit: int) -> bool {
    &&& n == fs.len()
    &&& n <= 12
    &&& forall|i: int| 0 <= i < n ==> #[trigger] out[i] == fs[i]
    &&& forall|i: int| 0 <= i < n ==> 0 <= #[trigger] fs[i] < limit
}

proof fn lemma_wrote(before: Seq<u16>, after: Seq<u16>, n: int, m: int, a: Seq<int>, b: Seq<int>, limit: int)
    requires
        wrote(before, n, a, limit),
        n + b.len() == m,
        m <= 12,
        forall|i: int| 0 <= i < n ==> after[i] == before[i],
        forall|i: int| 0 <= i < b.len() ==> #[trigger] after[n + i] == b[i],
        forall|i: int| 0 <= i < b.len() ==> 0 <= #[trigger] b[i] < limit,
    ensures
        wrote(after, m, a + b, limit),
{
    let c = a + b;
    assert forall|i: int| 0 <= i < m implies #[trigger] after[i] == c[i] by {
        if i >= n {
            assert(after[n + (i - n)] == b[i - n]);
        }
    }
    assert forall|i: int| 0 <= i < m implies 0 <= #[trigger] c[i] < limit by {
        if i >= n {
            assert(c[i] == b[i - n]);
        } else {
            assert(c[i] == a[i]);
        }
    }
}

proof fn lemma_side_on_board(bb: BitBoard, p: Player)
    requires
        bb.inv(),
    ensures
        forall|s: int| #[trigger] on(bb.barrels_of(p), s) ==> on_board(s),
        forall|s: int| #[trigger] on(bb.pail_mask_of(p), s) ==> on_board(s),
{
    assert forall|s: int| on(bb.barrels_of(p), s) || on(bb.pail_mask_of(p), s) implies on_board(s) by {
        bb.lemma_square(s);
        assert(on(bb.barrels_of(p), s) == (bb.cell_at(s) == crate::rules::barrel_of(p)));
        assert(on(bb.pail_mask_of(p), s) == (bb.cell_at(s) == crate::rules::pail_of(p)));
    }
}

/// Features of one kind lie in its range.
proof fn lemma_kind_bounds(m: u64, f: bool, scale: int, base: int)
    requires
        forall|s: int| #[trigger] on(m, s) ==> on_board(s),
        scale == 3 || scale == 4,
    ensures
        forall|i: int|
            0 <= i < kind_features(members_from(m, 0), f, scale, base).len() ==> base <= #[trigger] kind_features(
                members_from(m, 0),
                f,
                scale,
                base,
            )[i] <= base + 35 * scale,
{
    let ms = members_from(m, 0);
    assert forall|i: int| 0 <= i < ms.len() implies base <= #[trigger] kind_features(ms, f, scale, base)[i] <= base + 35
        * scale by {
        lemma_member(m, 0, i);
        crate::mirror::lemma_flip(ms[i]);
    }
}

/// What is listed is a member, and the list ascends.
pub proof fn lemma_member(m: u64, from: int, i: int)
    requires
        0 <= from,
        0 <= i < members_from(m, from).len(),
    ensures
        on(m, members_from(m, from)[i]),
        from <= members_from(m, from)[i] < 64,
    decreases 64 - from,
{
    if from < 64 {
        if on(m, from) {
            if i > 0 {
                lemma_member(m, from + 1, i - 1);
            }
        } else {
            lemma_member(m, from + 1, i);
        }
    }
}

/// The list of the least member, empty for an empty mask.
pub open spec fn first_member(m: u64) -> Seq<int> {
    if m == 0 {
        Seq::empty()
    } else {
        seq![u64_trailing_zeros(m) as int]
    }
}

/// As many members are listed as the mask has from `from` on.
pub proof fn lemma_members_len(m: u64, from: int)
    requires
        0 <= from <= 64,
    ensures
        members_from(m, from).len() + count_below(m, from as nat) == popcount(m),
    decreases 64 - from,
{
    if from < 64 {
        lemma_members_len(m, from + 1);
    }
}

proof fn lemma_members_skip(m: u64, from: int, to: int)
    requires
        from <= to <= 64,
        forall|s: int| from <= s < to ==> !on(m, s),
    ensures
        members_from(m, from) == members_from(m, to),
    decreases to - from,
{
    if from < to {
        lemma_members_skip(m, from + 1, to);
    }
}

proof fn lemma_members_same(a: u64, b: u64, from: int)
    requires
        forall|s: int| from <= s < 64 ==> on(a, s) == on(b, s),
    ensures
        members_from(a, from) == members_from(b, from),
    decreases 64 - from,
{
    if from < 64 {
        lemma_members_same(a, b, from + 1);
    }
}

/// The list of a nonempty mask starts with its least member; the rest lists
/// the mask without it.
pub proof fn lemma_members_lowest(m: u64)
    requires
        m != 0,
    ensures
        members_from(m, 0) == seq![u64_trailing_zeros(m) as int] + members_from(m & (m - 1) as u64, 0),
{
    lemma_lowest(m);
    let t = u64_trailing_zeros(m) as int;
    let r = m & (m - 1) as u64;
    lemma_members_skip(m, 0, t);
    lemma_members_skip(r, 0, t + 1);
    lemma_members_same(m, r, t + 1);
}

} // verus!
