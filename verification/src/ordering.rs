//! Move ordering: what to search first, and what cutoffs teach.
use vstd::prelude::*;
use crate::bitmove::BitMove;
use crate::board::Player;
use crate::engine::{within, BitBoardEngine, OutputLayer};
use crate::rules::goal_row_of;
use crate::squares::{col_of, row_of, BOARD_SIZE, MAX_DEPTH, NUM_SQUARES};

verus! {

/// Division that drops the fraction.
pub open spec fn trunc_div(x: int, d: int) -> int {
    if x >= 0 {
        x / d
    } else {
        -((-x) / d)
    }
}

pub(crate) fn div_trunc(x: i32, d: i32) -> (r: i32)
    requires
        x > i32::MIN,
        d > 0,
    ensures
        r == trunc_div(x as int, d as int),
        x >= 0 ==> 0 <= r <= x,
        x < 0 ==> x <= r <= 0,
{
    proof {
        let a = if x >= 0 { x as int } else { -x };
        let b = d as int;
        assert(0 <= a / b <= a) by (nonlinear_arith)
            requires
                a >= 0,
                b >= 1,
        ;
    }
    if x >= 0 {
        x / d
    } else {
        -((-x) / d)
    }
}

pub open spec fn same_word(m: BitMove, k: Option<BitMove>) -> bool {
    k matches Some(x) && m.packed == x.packed
}

/// The place of a pair of squares in a history table.
pub open spec fn pair_index(a: int, b: int) -> int {
    a * 36 + b
}

/// Rows gained toward the goal.
pub open spec fn rows_gained(p: Player, from: int, to: int) -> int {
    match p {
        Player::White => row_of(from) - row_of(to),
        Player::Black => row_of(to) - row_of(from),
    }
}

pub open spec fn dist_of(a: int, b: int) -> int {
    if a < b {
        b - a
    } else {
        a - b
    }
}

/// The parts of a move's order that the move alone decides.
pub open spec fn shape_score(m: BitMove, p: Player) -> int {
    let to = m.to_sq();
    (if row_of(to) == goal_row_of(p) { 500int } else { 0 }) + (if m.places_barrel() {
        50 + (3 - dist_of(col_of(to), 3)) * 10
    } else {
        (if m.from_code() != 63 { rows_gained(p, m.from_code(), to) * 100 } else { 0 }) + (if m.len() > 1 {
            (m.len() - 1) * 50
        } else {
            0
        })
    }) + (if m.pail_code() != 63 { 20int } else { 0 })
}

/// The killer moves with one that cut off at a depth; the newest comes first.
pub open spec fn killers_with(
    v: Seq<(Option<BitMove>, Option<BitMove>)>,
    mv: BitMove,
    depth: int,
) -> Seq<(Option<BitMove>, Option<BitMove>)> {
    if depth >= 32 || same_word(mv, v[depth].0) {
        v
    } else {
        v.update(depth, (Some(mv), v[depth].0))
    }
}

/// The history with a barrel move credited with its depth squared, up to a cap.
pub open spec fn history_with(v: Seq<i32>, mv: BitMove, depth: int) -> Seq<i32> {
    if mv.places_barrel() || mv.from_code() == 63 {
        v
    } else {
        let i = pair_index(mv.from_code(), mv.to_sq());
        let h = v[i] + depth * depth;
        v.update(
            i,
            (if h < 10_000 {
                h
            } else {
                10_000
            }) as i32,
        )
    }
}

/// The history of answers with a move credited after the move before it.
pub open spec fn cont_with(v: Seq<i32>, prev: BitMove, mv: BitMove, depth: int) -> Seq<i32> {
    let i = pair_index(prev.to_sq(), mv.to_sq());
    let h = v[i] + depth * depth;
    v.update(
        i,
        (if h < 32_000 {
            h
        } else {
            32_000
        }) as i32,
    )
}

impl<L: OutputLayer> BitBoardEngine<L> {
    /// Credit of the two killer moves.
    pub open spec fn killer_score(&self, m: BitMove, depth: int) -> int {
        if depth < 32 {
            (if same_word(m, self.killer_moves@[depth].0) { 5_000int } else { 0 }) + (if same_word(
                m,
                self.killer_moves@[depth].1,
            ) {
                4_000int
            } else {
                0
            })
        } else {
            0
        }
    }

    /// Credit of the histories.
    pub open spec fn history_score(&self, m: BitMove) -> int {
        (if !m.places_barrel() && m.from_code() != 63 {
            trunc_div(self.history@[pair_index(m.from_code(), m.to_sq())] as int, 10)
        } else {
            0
        }) + (match self.prev_move {
            Some(q) => trunc_div(2 * self.cont_history@[pair_index(q.to_sq(), m.to_sq())], 10),
            None => 0,
        })
    }

    /// How early a move is searched: the table's move first, then killers,
    /// histories and the move's own merits.
    pub open spec fn move_score(&self, m: BitMove, p: Player, depth: int, tt_move: Option<BitMove>) -> int {
        if same_word(m, tt_move) {
            10_000
        } else {
            self.killer_score(m, depth) + self.history_score(m) + shape_score(m, p)
        }
    }

    fn score_killers(&self, mv: &BitMove, depth: usize) -> (r: i32)
        requires
            self.killer_moves@.len() == MAX_DEPTH,
        ensures
            r == self.killer_score(*mv, depth as int),
            0 <= r <= 9_000,
    {
        let mut score: i32 = 0;
        if depth < MAX_DEPTH {
            let (k1, k2): (Option<BitMove>, Option<BitMove>) = self.killer_moves[depth];
            if let Some(k) = k1 {
                if mv.packed == k.packed {
                    score = score + 5_000;
                }
            }
            if let Some(k) = k2 {
                if mv.packed == k.packed {
                    score = score + 4_000;
                }
            }
        }
        score
    }

    fn score_histories(&self, mv: &BitMove) -> (r: i32)
        requires
            within(self.history@, 1296, 0, 10_000),
            within(self.cont_history@, 1296, -32_000, 32_000),
            self.prev_move matches Some(m) ==> m.to_sq() < 36,
            mv.valid(),
        ensures
            r == self.history_score(*mv),
            -64_000 <= r <= 74_000,
    {
        let mut score: i32 = 0;
        let to_sq: usize = mv.barrel_to() as usize;
        if !mv.is_placement() {
            if let Some(from_sq) = mv.barrel_from() {
                let h: i32 = self.history[from_sq as usize * NUM_SQUARES + to_sq];
                score = div_trunc(h, 10);
            }
        }
        if let Some(pm) = self.prev_move {
            let prev_to: usize = pm.barrel_to() as usize;
            let c: i32 = self.cont_history[prev_to * NUM_SQUARES + to_sq];
            score = score + div_trunc(2 * c, 10);
        }
        score
    }

    /// The order of a move; see `move_score`.
    pub fn score_move(&self, mv: &BitMove, player: Player, depth: usize, tt_move: Option<BitMove>) -> (r: i32)
        requires
            self.wf(),
            mv.valid(),
        ensures
            r == self.move_score(*mv, player, depth as int, tt_move),
            -100_000 <= r <= 100_000,
    {
        reveal(BitBoardEngine::tables_ok);
        if let Some(tt_mv) = tt_move {
            if mv.packed == tt_mv.packed {
                return 10_000;
            }
        }
        let killers: i32 = self.score_killers(mv, depth);
        let histories: i32 = self.score_histories(mv);
        killers + histories + Self::score_shape(mv, player)
    }

    fn score_shape(mv: &BitMove, player: Player) -> (r: i32)
        requires
            mv.valid(),
        ensures
            r == shape_score(*mv, player),
            -2_000 <= r <= 2_000,
    {
        let to_sq: usize = mv.barrel_to() as usize;
        let to_row: i32 = (to_sq / BOARD_SIZE) as i32;
        let to_col: i32 = (to_sq % BOARD_SIZE) as i32;
        let goal_row: i32 = match player {
            Player::White => 0,
            Player::Black => 5,
        };
        let mut score: i32 = 0;
        if to_row == goal_row {
            score = score + 500;
        }
        if mv.is_placement() {
            score = score + 50;
            let center_col: i32 = 3;
            let col_dist: i32 = if to_col < center_col { center_col - to_col } else { to_col - center_col };
            score = score + (3 - col_dist) * 10;
        } else {
            if let Some(from_sq) = mv.barrel_from() {
                let from_row: i32 = (from_sq as usize / BOARD_SIZE) as i32;
                let forward: i32 = match player {
                    Player::White => from_row - to_row,
                    Player::Black => to_row - from_row,
                };
                score = score + forward * 100;
            }
            let path_len: i32 = mv.path_len() as i32;
            if path_len > 1 {
                score = score + (path_len - 1) * 50;
            }
        }
        if mv.pail_pos().is_some() {
            score = score + 20;
        }
        score
    }

    /// Remembers a move that cut off at this depth; the newest comes first.
    pub(crate) fn store_killer(&mut self, mv: &BitMove, depth: usize)
        requires
            old(self).wf(),
        ensures
            final(self).wf(),
            *final(self) == (BitBoardEngine { killer_moves: final(self).killer_moves, ..*old(self) }),
            final(self).killer_moves@ == killers_with(old(self).killer_moves@, *mv, depth as int),
    {
        reveal(BitBoardEngine::tables_ok);
        if depth >= MAX_DEPTH {
            return;
        }
        let (k1, _): (Option<BitMove>, Option<BitMove>) = self.killer_moves[depth];
        if let Some(k) = k1 {
            if mv.packed == k.packed {
                return;
            }
        }
        self.killer_moves.set(depth, (Some(*mv), k1));
    }

    /// Credits a barrel move that cut off with its depth squared, up to a cap.
    pub(crate) fn update_history(&mut self, mv: &BitMove, depth: u8)
        requires
            old(self).wf(),
            mv.valid(),
        ensures
            final(self).wf(),
            *final(self) == (BitBoardEngine { history: final(self).history, ..*old(self) }),
            final(self).history@ == history_with(old(self).history@, *mv, depth as int),
    {
        reveal(BitBoardEngine::tables_ok);
        if mv.is_placement() {
            return;
        }
        if let Some(from_sq) = mv.barrel_from() {
            let i: usize = from_sq as usize * NUM_SQUARES + mv.barrel_to() as usize;
            let d: i32 = depth as i32;
            assert(0 <= d * d <= 65025) by (nonlinear_arith)
                requires
                    0 <= d <= 255,
            ;
            let h: i32 = self.history[i] + d * d;
            self.history.set(i, if h < 10_000 { h } else { 10_000 });
        }
    }

    /// Credits a move that cut off after the previous move with its depth
    /// squared, within bounds.
    pub(crate) fn update_cont_history(&mut self, prev: &BitMove, mv: &BitMove, depth: u8)
        requires
            old(self).wf(),
            prev.to_sq() < 36,
            mv.valid(),
        ensures
            final(self).wf(),
            *final(self) == (BitBoardEngine { cont_history: final(self).cont_history, ..*old(self) }),
            final(self).cont_history@ == cont_with(old(self).cont_history@, *prev, *mv, depth as int),
    {
        reveal(BitBoardEngine::tables_ok);
        let i: usize = prev.barrel_to() as usize * NUM_SQUARES + mv.barrel_to() as usize;
        let d: i32 = depth as i32;
        assert(0 <= d * d <= 65025) by (nonlinear_arith)
            requires
                0 <= d <= 255,
        ;
        let h: i32 = self.cont_history[i] + d * d;
        self.cont_history.set(i, if h < 32_000 { h } else { 32_000 });
    }

    /// The places that the moves of the second list have in the first one, whose
    /// scores descend, and equal ones keep their order.
    pub open spec fn sorts(
        &self,
        listed: Seq<BitMove>,
        sorted: Seq<BitMove>,
        player: Player,
        depth: int,
        tt_move: Option<BitMove>,
        places: Seq<int>,
    ) -> bool {
        &&& places.len() == listed.len()
        &&& sorted.len() == listed.len()
        &&& forall|i: int|
            0 <= i < places.len() ==> 0 <= #[trigger] places[i] < listed.len() && sorted[i] == listed[places[i]]
        &&& forall|i: int, j: int|
            0 <= i < j < places.len() ==> {
                let a = self.move_score(listed[#[trigger] places[i]], player, depth, tt_move);
                let b = self.move_score(listed[#[trigger] places[j]], player, depth, tt_move);
                a > b || a == b && places[i] < places[j]
            }
    }

    /// The moves in descending order of `move_score`; equal ones keep their
    /// order.
    pub fn order_moves(&self, moves: Vec<BitMove>, player: Player, depth: usize, tt_move: Option<BitMove>) -> (r: Vec<
        BitMove,
    >)
        requires
            self.wf(),
            forall|i: int| 0 <= i < moves@.len() ==> (#[trigger] moves@[i]).valid(),
        ensures
            r@.to_multiset() == moves@.to_multiset(),
            r@.len() == moves@.len(),
            forall|i: int, j: int|
                0 <= i < j < r@.len() ==> self.move_score(#[trigger] r@[i], player, depth as int, tt_move)
                    >= self.move_score(#[trigger] r@[j], player, depth as int, tt_move),
            exists|places: Seq<int>| #[trigger] self.sorts(moves@, r@, player, depth as int, tt_move, places),
    {
        reveal(BitBoardEngine::tables_ok);
        let ghost mut places: Seq<int> = Seq::empty();
        let mut keys: Vec<i32> = Vec::new();
        let mut sorted: Vec<BitMove> = Vec::new();
        let mut n: usize = 0;
        assert(moves@.subrange(0, 0) =~= Seq::<BitMove>::empty());
        assert(sorted@ =~= Seq::<BitMove>::empty());
        while n < moves.len()
            invariant
                self.wf(),
                forall|i: int| 0 <= i < moves@.len() ==> (#[trigger] moves@[i]).valid(),
                n <= moves@.len(),
                keys@.len() == n,
                sorted@.len() == n,
                sorted@.to_multiset() == moves@.subrange(0, n as int).to_multiset(),
                forall|i: int|
                    0 <= i < n ==> #[trigger] keys@[i] == self.move_score(sorted@[i], player, depth as int, tt_move),
                forall|i: int, j: int| 0 <= i < j < n ==> #[trigger] keys@[i] >= #[trigger] keys@[j],
                places.len() == n,
                forall|i: int| 0 <= i < n ==> 0 <= #[trigger] places[i] < n && sorted@[i] == moves@[places[i]],
                forall|i: int, j: int|
                    0 <= i < j < n ==> keys@[i] > keys@[j] || keys@[i] == keys@[j] && #[trigger] places[i] < #[trigger] places[j],
            decreases moves@.len() - n,
        {
            let mv: BitMove = moves[n];
            assert(moves@[n as int].valid());
            let key: i32 = self.score_move(&mv, player, depth, tt_move);
            let mut at: usize = n;
            while at > 0 && keys[at - 1] < key
                invariant
                    at <= n,
                    keys@.len() == n,
                    forall|i: int| at <= i < n ==> #[trigger] keys@[i] < key,
                decreases at,
            {
                at = at - 1;
            }
            let ghost old_keys = keys@;
            let ghost old_sorted = sorted@;
            let ghost old_places = places;
            proof {
                places = old_places.insert(at as int, n as int);
            }
            keys.insert(at, key);
            sorted.insert(at, mv);
            proof {
                lemma_insert_multiset(old_sorted, at as int, mv);
                assert(moves@.subrange(0, n as int + 1) =~= moves@.subrange(0, n as int).push(mv));
                vstd::seq_lib::to_multiset_build(moves@.subrange(0, n as int), mv);
                assert forall|i: int| 0 <= i < n + 1 implies #[trigger] keys@[i] == self.move_score(
                    sorted@[i],
                    player,
                    depth as int,
                    tt_move,
                ) by {
                    if i < at {
                        assert(keys@[i] == old_keys[i] && sorted@[i] == old_sorted[i]);
                    } else if i > at {
                        assert(keys@[i] == old_keys[i - 1] && sorted@[i] == old_sorted[i - 1]);
                    }
                }
                assert forall|i: int, j: int| 0 <= i < j < n + 1 implies #[trigger] keys@[i] >= #[trigger] keys@[j] by {
                    if i < at {
                        assert(keys@[i] == old_keys[i]);
                    } else if i > at {
                        assert(keys@[i] == old_keys[i - 1]);
                    }
                    if j < at {
                        assert(keys@[j] == old_keys[j]);
                    } else if j > at {
                        assert(keys@[j] == old_keys[j - 1]);
                    }
                    if i < at && j == at {
                        assert(old_keys[i] >= old_keys[at - 1]);
                    }
                }
                assert forall|i: int| 0 <= i < n + 1 implies 0 <= #[trigger] places[i] < n + 1 && sorted@[i]
                    == moves@[places[i]] by {
                    if i < at {
                        assert(places[i] == old_places[i] && sorted@[i] == old_sorted[i]);
                    } else if i > at {
                        assert(places[i] == old_places[i - 1] && sorted@[i] == old_sorted[i - 1]);
                    }
                }
                assert forall|i: int, j: int| 0 <= i < j < n + 1 implies keys@[i] > keys@[j] || keys@[i] == keys@[j]
                    && #[trigger] places[i] < #[trigger] places[j] by {
                    if i < at {
                        assert(places[i] == old_places[i] && keys@[i] == old_keys[i]);
                    } else if i > at {
                        assert(places[i] == old_places[i - 1] && keys@[i] == old_keys[i - 1]);
                    }
                    if j < at {
                        assert(places[j] == old_places[j] && keys@[j] == old_keys[j]);
                    } else if j > at {
                        assert(places[j] == old_places[j - 1] && keys@[j] == old_keys[j - 1]);
                    }
                    assert(keys@[i] >= keys@[j]);
                }
            }
            n = n + 1;
        }
        assert(moves@.subrange(0, n as int) =~= moves@);
        proof {
            assert(self.sorts(moves@, sorted@, player, depth as int, tt_move, places)) by {
                assert forall|i: int, j: int| 0 <= i < j < places.len() implies {
                    let a = self.move_score(moves@[#[trigger] places[i]], player, depth as int, tt_move);
                    let b = self.move_score(moves@[#[trigger] places[j]], player, depth as int, tt_move);
                    a > b || a == b && places[i] < places[j]
                } by {
                    assert(keys@[i] == self.move_score(sorted@[i], player, depth as int, tt_move));
                    assert(keys@[j] == self.move_score(sorted@[j], player, depth as int, tt_move));
                }
            }
            assert forall|i: int, j: int|
                0 <= i < j < sorted@.len() implies self.move_score(#[trigger] sorted@[i], player, depth as int, tt_move)
                >= self.move_score(#[trigger] sorted@[j], player, depth as int, tt_move) by {
                assert(keys@[i] >= keys@[j]);
            }
        }
        sorted
    }
}

proof fn lemma_insert_multiset(s: Seq<BitMove>, at: int, m: BitMove)
    requires
        0 <= at <= s.len(),
    ensures
        s.insert(at, m).to_multiset() == s.to_multiset().insert(m),
{
    let t = s.insert(at, m);
    assert(t.remove(at) =~= s);
    vstd::seq_lib::to_multiset_remove(t, at);
    assert(t[at] == m);
    t.to_multiset_ensures();
    assert(t.contains(m));
    assert(t.to_multiset().count(m) > 0);
    assert(t.to_multiset() =~= s.to_multiset().insert(m));
}

} // verus!
