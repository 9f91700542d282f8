//! What the search needs of single positions: scores of finished and drawn
//! games, children, and the decisions that prune.
use vstd::prelude::*;
use crate::bitboard::BitBoard;
use crate::bitmove::BitMove;
use crate::board::Player;
use crate::engine::{legal_for_hash, score_ok, BitBoardEngine, OutputLayer, SCORE_LIMIT, WIN_BOUND, WIN_SCORE};
use crate::movegen::{has_action, lists_legal};
use crate::network::SparseNNUE;
use crate::phase::{is_black_win, is_white_win, win_dist};
use crate::retrograde::{lemma_listed_legal, lemma_listed_playable};
use crate::rules::{hash_of, Action};
use crate::squares::MAX_DEPTH;
use crate::zobrist::side_key;

verus! {

/// A game position with counters that allow `room` more moves.
#[verifier::opaque]
pub open spec fn board_ok(bb: BitBoard, room: int) -> bool {
    bb.wf() && room >= 0 && bb.move_count + room <= u32::MAX && bb.halfmove_clock + room <= u16::MAX
}

/// A move that stands for a legal action.
#[verifier::opaque]
pub open spec fn is_legal(bb: BitBoard, m: BitMove) -> bool {
    m.valid() && m.single() && bb@.legal(m@)
}

/// The side to move can act.
#[verifier::opaque]
pub open spec fn can_act(bb: BitBoard) -> bool {
    exists|a: Action| #[trigger] bb@.legal(a)
}

/// All moves of the list are legal.
pub open spec fn all_legal(bb: BitBoard, moves: Seq<BitMove>) -> bool {
    forall|i: int| 0 <= i < moves.len() ==> is_legal(bb, #[trigger] moves[i])
}

pub proof fn lemma_less_room(bb: BitBoard, a: int, b: int)
    requires
        board_ok(bb, a),
        0 <= b <= a,
    ensures
        board_ok(bb, b),
{
    reveal(board_ok);
}

pub proof fn lemma_legal_for_hash(bb: BitBoard, room: int, m: BitMove)
    requires
        board_ok(bb, room),
        bb@.winner() is None,
        is_legal(bb, m),
    ensures
        legal_for_hash(bb.hash, m),
        m.valid(),
        m.to_sq() < 36,
{
    reveal(board_ok);
    reveal(is_legal);
}

/// A game position that carries its own hash.
#[verifier::opaque]
pub open spec fn keyed(bb: BitBoard) -> bool {
    bb.proper() && bb.hash == hash_of(bb@)
}

/// The hash stays the position's own through a legal move.
pub proof fn lemma_keyed_child(bb: BitBoard, m: BitMove, room: int)
    requires
        keyed(bb),
        board_ok(bb, room),
        room >= 1,
        is_legal(bb, m),
    ensures
        keyed(bb.played(m)),
{
    reveal(keyed);
    reveal(board_ok);
    reveal(is_legal);
    lemma_listed_playable(bb, m);
    bb.lemma_played(m);
}

/// The hash stays the position's own when the turn is passed.
pub proof fn lemma_keyed_pass(bb: BitBoard)
    requires
        keyed(bb),
        bb.null_played().wf(),
        bb.move_count < u32::MAX,
    ensures
        keyed(bb.null_played()),
{
    reveal(keyed);
    let n = bb.null_played();
    assert(n@.cells =~= bb@.cells);
    let x = crate::rules::cells_hash(bb@.cells, 36);
    let k = side_key();
    let a = crate::zobrist::off_board_key(0, bb@.white_off);
    let b = crate::zobrist::off_board_key(1, bb@.black_off);
    lemma_side_flip(x, k, a, b);
}

proof fn lemma_side_flip(x: u64, k: u64, a: u64, b: u64)
    by (bit_vector)
    ensures
        (x ^ 0 ^ a ^ b) ^ k == x ^ k ^ a ^ b,
        (x ^ k ^ a ^ b) ^ k == x ^ 0 ^ a ^ b,
{
}

/// A pail placement keeps the player to move, any other move changes it.
pub proof fn lemma_next_player(bb: BitBoard, m: BitMove)
    requires
        m.single(),
    ensures
        bb.played(m).current_player == if m.pail_only() {
            bb.current_player
        } else {
            bb.current_player.opponent()
        },
{
    reveal(BitBoard::played);
}

/// The legal moves of a position.
pub(crate) fn legal_moves(bb: &BitBoard, Ghost(room): Ghost<int>) -> (r: Vec<BitMove>)
    requires
        board_ok(*bb, room),
    ensures
        all_legal(*bb, r@),
        forall|i: int| 0 <= i < r@.len() ==> (#[trigger] r@[i]).valid(),
        r@.len() > 0 <==> can_act(*bb),
        lists_legal(r@, bb@),
{
    reveal(board_ok);
    reveal(is_legal);
    let r = bb.generate_moves();
    proof {
        reveal(can_act);
        assert forall|i: int| 0 <= i < r@.len() implies is_legal(*bb, #[trigger] r@[i]) && r@[i].valid() by {
            lemma_listed_legal(r@, bb@, i);
        }
        if r@.len() > 0 {
            assert(is_legal(*bb, r@[0]));
            assert(bb@.legal(r@[0]@));
        }
        if can_act(*bb) {
            let a = choose|a: Action| #[trigger] bb@.legal(a);
            let kind = |a: Action| bb@.legal(a);
            assert(kind(a));
            assert(has_action(r@, 0, a));
        }
    }
    r
}

/// The position after a legal move.
pub(crate) fn child_of(bb: &BitBoard, mv: &BitMove, Ghost(room): Ghost<int>) -> (r: BitBoard)
    requires
        board_ok(*bb, room + 1),
        room >= 0,
        is_legal(*bb, *mv),
    ensures
        board_ok(r, room),
        r == bb.played(*mv),
{
    reveal(board_ok);
    reveal(is_legal);
    let mut child = *bb;
    proof {
        lemma_listed_playable(*bb, *mv);
    }
    child.make_move(mv);
    proof {
        assert(child.move_count as int == child@.move_count && child.halfmove_clock as int == child@.clock);
        assert(child@.move_count <= bb@.move_count + 1 && child@.clock <= bb@.clock + 1);
    }
    child
}

/// The position after passing the turn.
pub(crate) fn passed_turn(bb: &BitBoard, Ghost(room): Ghost<int>) -> (r: BitBoard)
    requires
        board_ok(*bb, room + 1),
        room >= 0,
        !bb.awaiting_barrel,
    ensures
        board_ok(r, room),
        r == bb.null_played(),
{
    reveal(board_ok);
    let mut child = *bb;
    child.make_null_move();
    proof {
        assert(child@.cells =~= bb@.cells);
        assert(child.wf());
    }
    child
}

/// The hash stands in the list.
pub(crate) fn holds_hash(v: &Vec<u64>, h: u64) -> (r: bool)
    ensures
        r == v@.contains(h),
{
    let mut i: usize = 0;
    while i < v.len()
        invariant
            i <= v@.len(),
            forall|k: int| 0 <= k < i ==> v@[k] != h,
        decreases v@.len() - i,
    {
        if v[i] == h {
            assert(v@[i as int] == h);
            return true;
        }
        i = i + 1;
    }
    false
}

/// A window of scores to search in. An open end is the end of the machine
/// range short of one.
pub open spec fn window_ok(alpha: i32, beta: i32) -> bool {
    &&& alpha < beta
    &&& alpha == i32::MIN + 1 || -SCORE_LIMIT - 1 <= alpha <= SCORE_LIMIT
    &&& beta == i32::MAX - 1 || -SCORE_LIMIT <= beta <= SCORE_LIMIT + 1
}

/// The score of a game won at distance `dist` from the root; nearer is better
/// for the winner.
pub open spec fn win_score_of(winner: Player, dist: int) -> int {
    match winner {
        Player::White => WIN_SCORE - dist,
        Player::Black => -(WIN_SCORE - dist),
    }
}

pub open spec fn to_tt(v: int, ply: int) -> int {
    if v > WIN_BOUND {
        v + ply
    } else if v < -WIN_BOUND {
        v - ply
    } else {
        v
    }
}

pub open spec fn from_tt(v: int, ply: int) -> int {
    if v > WIN_BOUND {
        v - ply
    } else if v < -WIN_BOUND {
        v + ply
    } else {
        v
    }
}

/// The score of a game won at this distance.
pub fn win_score(winner: Player, dist: i32) -> (r: i32)
    requires
        0 <= dist <= 1_000_000,
    ensures
        r == win_score_of(winner, dist as int),
{
    match winner {
        Player::White => WIN_SCORE - dist,
        Player::Black => -(WIN_SCORE - dist),
    }
}

/// A score relative to the root as one relative to the node: wins count their
/// distance from the node.
pub fn value_to_tt(v: i32, ply: i32) -> (r: i32)
    requires
        score_ok(v as int),
        0 <= ply <= 1_000_000,
    ensures
        r == to_tt(v as int, ply as int),
{
    if v > WIN_BOUND {
        v + ply
    } else if v < -WIN_BOUND {
        v - ply
    } else {
        v
    }
}

/// A score relative to the node as one relative to the root.
pub fn value_from_tt(v: i32, ply: i32) -> (r: i32)
    requires
        score_ok(v as int),
        0 <= ply <= 1_000_000,
    ensures
        r == from_tt(v as int, ply as int),
        score_ok(r as int),
{
    if v > WIN_BOUND {
        v - ply
    } else if v < -WIN_BOUND {
        v + ply
    } else {
        v
    }
}

/// A score stored at a node and read back at the same distance from the root
/// is the same score.
pub proof fn law_tt_score_round_trip(v: int, ply: int)
    requires
        ply >= 0,
    ensures
        from_tt(to_tt(v, ply), ply) == v,
{
}

/// A nearer win scores higher for white and lower for black.
pub proof fn law_faster_wins_score_better(near: int, far: int)
    requires
        0 <= near < far,
    ensures
        win_score_of(Player::White, near) > win_score_of(Player::White, far),
        win_score_of(Player::Black, near) < win_score_of(Player::Black, far),
{
}

impl<L: OutputLayer> BitBoardEngine<L> {
    /// The score of a draw from white's point of view, if `root` is to move at
    /// the root.
    pub open spec fn draw_for(&self, root: Player) -> int {
        match root {
            Player::White => -self.contempt,
            Player::Black => self.contempt as int,
        }
    }

    pub open spec fn draw_value(&self) -> int {
        self.draw_for(self.root_player)
    }

    pub(crate) fn draw_score(&self) -> (r: i32)
        requires
            score_ok(self.contempt as int),
        ensures
            r == self.draw_value(),
            score_ok(r as int),
    {
        match self.root_player {
            Player::White => -self.contempt,
            Player::Black => self.contempt,
        }
    }

    /// The current node's distance from the root.
    pub open spec fn ply_of(&self) -> int {
        if self.path_hashes@.len() == 0 {
            0
        } else {
            self.path_hashes@.len() - 1
        }
    }

    pub(crate) fn ply(&self) -> (r: i32)
        requires
            self.path_hashes@.len() <= 1_000_000,
        ensures
            r == self.ply_of(),
            0 <= r <= 1_000_000,
    {
        let n: usize = self.path_hashes.len();
        if n == 0 {
            0
        } else {
            (n - 1) as i32
        }
    }

    /// The node is a draw by the rules: not the root, and either no progress
    /// for too long or a position seen before.
    pub open spec fn is_draw_node(&self, bb: BitBoard) -> bool {
        &&& self.path_hashes@.len() > 0
        &&& (self.no_progress_limit > 0 && bb.halfmove_clock >= self.no_progress_limit) || self.path_hashes@.contains(
            bb.hash,
        ) || self.game_history@.contains(bb.hash)
    }

    pub(crate) fn drawn_by_rule(&self, bb: &BitBoard) -> (r: bool)
        ensures
            r == self.is_draw_node(*bb),
    {
        if self.path_hashes.len() == 0 {
            return false;
        }
        if self.no_progress_limit > 0 && bb.halfmove_clock >= self.no_progress_limit {
            return true;
        }
        holds_hash(&self.path_hashes, bb.hash) || holds_hash(&self.game_history, bb.hash)
    }

    /// What the tables say of a position, if anything.
    pub open spec fn table_value(&self, bb: BitBoard) -> Option<u8> {
        match self.tablebase {
            Some(tb) => tb.value_of(bb),
            None => None,
        }
    }

    /// A table's value as a score: wins by their distance from the root.
    pub open spec fn table_score(&self, v: u8) -> int {
        let d = self.path_hashes@.len() + win_dist(v);
        if is_white_win(v) {
            WIN_SCORE - d
        } else if is_black_win(v) {
            -(WIN_SCORE - d)
        } else {
            self.draw_value()
        }
    }

    pub(crate) fn probe_tables(&self, bb: &BitBoard, Ghost(room): Ghost<int>) -> (r: Option<i32>)
        requires
            self.settings_ok(),
            board_ok(*bb, room),
            self.path_hashes@.len() <= 1_000_000,
        ensures
            r is Some <==> self.table_value(*bb) is Some,
            r matches Some(s) ==> s == self.table_score(self.table_value(*bb)->0) && score_ok(s as int),
    {
        reveal(board_ok);
        proof {
            crate::phase::lemma_barrels_popcount(*bb, Player::White);
            crate::phase::lemma_barrels_popcount(*bb, Player::Black);
        }
        let v: u8 = match &self.tablebase {
            Some(tb) => match tb.value(bb) {
                Some(v) => v,
                None => {
                    return None;
                },
            },
            None => {
                return None;
            },
        };
        let ply: i32 = self.path_hashes.len() as i32;
        if is_white_win(v) {
            Some(WIN_SCORE - (ply + win_dist(v) as i32))
        } else if is_black_win(v) {
            Some(-(WIN_SCORE - (ply + win_dist(v) as i32)))
        } else {
            Some(self.draw_score())
        }
    }

    /// The accumulators are brought to a child on a new place of the stack; the
    /// places below stay as they are. A full stack gets no new place. Without a
    /// network nothing happens.
    #[verifier::opaque]
    pub open spec fn enters_child(&self, after: Self, bb: BitBoard, child: BitBoard) -> bool {
        let s = self.acc_stack;
        let t = after.acc_stack;
        match self.nnue {
            Some(net) => {
                &&& after == (BitBoardEngine { acc_stack: t, ..*self })
                &&& net.brings(bb, child, s.top(), t.top())
                &&& t.depth == if s.depth + 1 < MAX_DEPTH {
                    s.depth + 1
                } else {
                    s.depth as int
                }
                &&& t.accumulators@.len() == s.accumulators@.len()
                &&& forall|i: int| 0 <= i < t.depth ==> #[trigger] t.accumulators@[i] == s.accumulators@[i]
            },
            None => after == *self,
        }
    }

    /// A child's place of the stack is left; what the places hold stays.
    #[verifier::opaque]
    pub open spec fn leaves_child(&self, after: Self) -> bool {
        let s = self.acc_stack;
        let t = after.acc_stack;
        match self.nnue {
            Some(net) => {
                &&& after == (BitBoardEngine { acc_stack: t, ..*self })
                &&& t.accumulators == s.accumulators
                &&& t.depth == if s.depth > 0 {
                    s.depth - 1
                } else {
                    0
                }
            },
            None => after == *self,
        }
    }

    /// Brings the accumulators to a child, on a new place of the stack.
    pub(crate) fn enter_child(&mut self, bb: &BitBoard, child: &BitBoard, Ghost(room): Ghost<int>)
        requires
            old(self).wf(),
            board_ok(*bb, room),
            board_ok(*child, 0),
        ensures
            final(self).wf(),
            *final(self) == (BitBoardEngine { acc_stack: final(self).acc_stack, ..*old(self) }),
            old(self).enters_child(*final(self), *bb, *child),
    {
        reveal(BitBoardEngine::enters_child);
        reveal(SparseNNUE::brings);
        reveal(BitBoardEngine::tables_ok);
        reveal(board_ok);
        if let Some(net) = &self.nnue {
            proof {
                crate::phase::lemma_barrels_popcount(*bb, Player::White);
                crate::phase::lemma_barrels_popcount(*bb, Player::Black);
                crate::phase::lemma_barrels_popcount(*child, Player::White);
                crate::phase::lemma_barrels_popcount(*child, Player::Black);
            }
            self.acc_stack.push();
            net.update(bb, child, self.acc_stack.current_mut());
        }
    }

    /// Leaves a child's place of the stack.
    pub(crate) fn leave_child(&mut self)
        requires
            old(self).wf(),
        ensures
            final(self).wf(),
            *final(self) == (BitBoardEngine { acc_stack: final(self).acc_stack, ..*old(self) }),
            old(self).leaves_child(*final(self)),
    {
        reveal(BitBoardEngine::leaves_child);
        reveal(BitBoardEngine::tables_ok);
        if self.nnue.is_some() {
            self.acc_stack.pop();
        }
    }

    /// Puts the accumulators of the root on an empty stack.
    pub(crate) fn enter_root(&mut self, bb: &BitBoard, Ghost(room): Ghost<int>)
        requires
            old(self).wf(),
            board_ok(*bb, room),
        ensures
            final(self).wf(),
            *final(self) == (BitBoardEngine { acc_stack: final(self).acc_stack, ..*old(self) }),
            final(self).acc_stack.depth == 0,
            old(self).nnue matches Some(net) ==> net.holds(*bb, final(self).acc_stack.top()),
    {
        reveal(BitBoardEngine::tables_ok);
        reveal(board_ok);
        self.acc_stack.reset();
        if let Some(net) = &self.nnue {
            proof {
                crate::phase::lemma_barrels_popcount(*bb, Player::White);
                crate::phase::lemma_barrels_popcount(*bb, Player::Black);
            }
            net.init_accumulators(bb, self.acc_stack.current_mut());
        }
    }
}

/// Below a full stack, leaving a child gives back the parent's accumulators, if
/// what was done meanwhile kept its place and those below.
pub proof fn law_leaving_gives_back<L: OutputLayer>(
    parent: BitBoardEngine<L>,
    entered: BitBoardEngine<L>,
    searched: BitBoardEngine<L>,
    left: BitBoardEngine<L>,
    bb: BitBoard,
    child: BitBoard,
)
    requires
        parent.enters_child(entered, bb, child),
        parent.acc_stack.wf(),
        parent.acc_stack.depth + 1 < MAX_DEPTH,
        searched.nnue == parent.nnue,
        searched.acc_stack.depth == entered.acc_stack.depth,
        forall|i: int|
            0 <= i <= entered.acc_stack.depth ==> #[trigger] searched.acc_stack.accumulators@[i]
                == entered.acc_stack.accumulators@[i],
        searched.leaves_child(left),
    ensures
        left.acc_stack.depth == parent.acc_stack.depth,
        left.acc_stack.top() == parent.acc_stack.top(),
{
    reveal(BitBoardEngine::enters_child);
    reveal(BitBoardEngine::leaves_child);
}

} // verus!
