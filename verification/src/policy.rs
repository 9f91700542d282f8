//! What a policy network sees and says: input planes and move indices, both
//! relative to the side to move.
use vstd::prelude::*;
use crate::bitboard::BitBoard;
use crate::bitmove::BitMove;
use crate::bits::on;
use crate::board::Player;
use crate::mirror::{flip, flip_path, lemma_flip, mirror_action, mirror_sq, mirror_state};
use crate::rules::{barrel_of, pail_of, Action, GameState};
use crate::squares::{on_board, NUM_SQUARES};

verus! {

/// The number of policy outputs: 37 origins, the last of them off the board,
/// times 36 destinations.
pub const POLICY_SIZE: usize = 1332;

/// The number of input planes.
pub const NUM_PLANES: usize = 5;

/// The policy output of an action. Placements of either kind share the origin
/// off the board.
pub open spec fn policy_of(a: Action) -> int {
    match a {
        Action::Pail { at } => 36 * 36 + at,
        Action::Place { to } => 36 * 36 + to,
        Action::Walk { from, path } => from * 36 + path.last(),
    }
}

/// The policy output of a move.
pub fn policy_index(bm: &BitMove) -> (r: u16)
    requires
        bm.valid(),
    ensures
        r == policy_of(bm@),
        r < 1332,
{
    let to_idx: u16 = bm.barrel_to() as u16;
    let from_idx: u16 = match bm.barrel_from() {
        Some(from) => from as u16,
        None => 36,
    };
    proof {
        if !bm.pail_only() && !bm.places_barrel() {
            assert(bm.landings().last() == bm.to_sq());
        }
    }
    from_idx * 36 + to_idx
}

/// A policy output with the rows of its squares flipped.
pub open spec fn flip_output(i: int) -> int {
    (if i / 36 == 36 {
        36
    } else {
        flip(i / 36)
    }) * 36 + flip(i % 36)
}

/// A policy output with the rows of its squares flipped.
pub fn mirror_output(i: usize) -> (r: usize)
    requires
        i < 1332,
    ensures
        r == flip_output(i as int),
        r < 1332,
{
    let from: usize = i / NUM_SQUARES;
    let new_from: usize = if from == NUM_SQUARES { NUM_SQUARES } else { mirror_sq(from) };
    new_from * NUM_SQUARES + mirror_sq(i % NUM_SQUARES)
}

/// Flipping an output twice gives the output back.
pub proof fn law_flip_output_involution(i: int)
    requires
        0 <= i < 1332,
    ensures
        0 <= flip_output(i) < 1332,
        flip_output(flip_output(i)) == i,
{
    let f = i / 36;
    let t = i % 36;
    lemma_flip(t);
    if f != 36 {
        lemma_flip(f);
    }
    let g = if f == 36 { 36 } else { flip(f) };
    assert(flip_output(i) == g * 36 + flip(t));
    assert((g * 36 + flip(t)) / 36 == g && (g * 36 + flip(t)) % 36 == flip(t));
}

proof fn lemma_split_output(f: int, t: int)
    requires
        0 <= f <= 36,
        on_board(t),
    ensures
        (f * 36 + t) / 36 == f,
        (f * 36 + t) % 36 == t,
{
}

/// The output of a move seen from the other side of the board is the flipped
/// output.
pub proof fn law_mirrored_output(a: Action)
    requires
        match a {
            Action::Pail { at } => on_board(at),
            Action::Place { to } => on_board(to),
            Action::Walk { from, path } => on_board(from) && path.len() > 0 && on_board(path.last()),
        },
    ensures
        policy_of(mirror_action(a)) == flip_output(policy_of(a)),
{
    match a {
        Action::Pail { at } => {
            lemma_split_output(36, at);
        },
        Action::Place { to } => {
            lemma_split_output(36, to);
        },
        Action::Walk { from, path } => {
            lemma_split_output(from, path.last());
            assert(flip_path(path).last() == flip(path.last()));
        },
    }
}

/// The outputs with the rows flipped; missing ones count as `zero`.
pub open spec fn vflipped<T>(logits: Seq<T>, zero: T) -> Seq<T> {
    Seq::new(
        1332,
        |i: int|
            if flip_output(i) < logits.len() {
                logits[flip_output(i)]
            } else {
                zero
            },
    )
}

/// The outputs of a policy with the rows flipped: from absolute squares to
/// squares relative to black, or back. Missing outputs count as `zero`.
pub fn vflip_policy<T: Copy>(logits: &Vec<T>, zero: T) -> (r: Vec<T>)
    ensures
        r@ == vflipped(logits@, zero),
{
    let mut r: Vec<T> = Vec::with_capacity(POLICY_SIZE);
    let mut i: usize = 0;
    while i < POLICY_SIZE
        invariant
            i <= 1332,
            r@.len() == i,
            forall|k: int|
                0 <= k < i ==> #[trigger] r@[k] == if flip_output(k) < logits@.len() {
                    logits@[flip_output(k)]
                } else {
                    zero
                },
        decreases 1332 - i,
    {
        let j: usize = mirror_output(i);
        let x: T = if j < logits.len() { logits[j] } else { zero };
        r.push(x);
        i = i + 1;
    }
    assert(r@ =~= vflipped(logits@, zero));
    r
}

/// Flipping a whole policy twice gives the policy back.
pub proof fn law_vflip_policy_involution<T>(p: Seq<T>, zero: T)
    requires
        p.len() == 1332,
    ensures
        vflipped(vflipped(p, zero), zero) == p,
{
    let r = vflipped(vflipped(p, zero), zero);
    assert forall|i: int| 0 <= i < 1332 implies r[i] == p[i] by {
        law_flip_output_involution(i);
    }
    assert(r =~= p);
}

/// What stands on a square of a plane: barrels and pails of the side to move
/// and of the other side, and a plane that is always set. Black sees the rows
/// flipped.
pub open spec fn plane_has(s: GameState, plane: int, sq: int) -> bool {
    let at = match s.player {
        Player::White => sq,
        Player::Black => flip(sq),
    };
    if plane == 0 {
        s.cells[at] == barrel_of(s.player)
    } else if plane == 1 {
        s.cells[at] == barrel_of(s.player.opponent())
    } else if plane == 2 {
        s.cells[at] == pail_of(s.player)
    } else if plane == 3 {
        s.cells[at] == pail_of(s.player.opponent())
    } else {
        true
    }
}

/// The planes are those of a position, with `one` where a plane is set and
/// `zero` elsewhere.
pub open spec fn paints<T>(planes: Seq<T>, b: BitBoard, zero: T, one: T) -> bool {
    planes.len() == 180 && forall|i: int|
        0 <= i < 180 ==> #[trigger] planes[i] == if plane_has(b@, i / 36, i % 36) {
            one
        } else {
            zero
        }
}

/// The input planes of a position, with `one` where a plane is set and `zero`
/// elsewhere.
pub fn bb_to_planes<T: Copy>(bb: &BitBoard, zero: T, one: T) -> (r: Vec<T>)
    requires
        bb.inv(),
    ensures
        paints(r@, *bb, zero, one),
{
    let me: Player = bb.current_player;
    let you: Player = me.opponent();
    let my_barrels: u64 = bb.barrels(me);
    let opp_barrels: u64 = bb.barrels(you);
    let my_pail: u64 = bb.pail(me);
    let opp_pail: u64 = bb.pail(you);
    let mut r: Vec<T> = Vec::with_capacity(NUM_PLANES * NUM_SQUARES);
    let mut i: usize = 0;
    while i < NUM_PLANES * NUM_SQUARES
        invariant
            i <= 180,
            bb.inv(),
            me == bb.current_player,
            you == me.opponent(),
            my_barrels == bb.barrels_of(me),
            opp_barrels == bb.barrels_of(you),
            my_pail == bb.pail_mask_of(me),
            opp_pail == bb.pail_mask_of(you),
            r@.len() == i,
            forall|k: int|
                0 <= k < i ==> #[trigger] r@[k] == if plane_has(bb@, k / 36, k % 36) {
                    one
                } else {
                    zero
                },
        decreases 180 - i,
    {
        let sq: usize = i % NUM_SQUARES;
        let at: usize = match me {
            Player::White => sq,
            Player::Black => mirror_sq(sq),
        };
        let plane: usize = i / NUM_SQUARES;
        let mask: u64 = if plane == 0 {
            my_barrels
        } else if plane == 1 {
            opp_barrels
        } else if plane == 2 {
            my_pail
        } else {
            opp_pail
        };
        let set: bool = plane == 4 || (mask >> (at as u64)) & 1u64 == 1u64;
        proof {
            bb.lemma_square(at as int);
            assert(bb@.cells[at as int] == bb.cell_at(at as int));
            assert(on(bb.barrels_of(me), at as int) == (bb.cell_at(at as int) == barrel_of(me)));
            assert(on(bb.barrels_of(you), at as int) == (bb.cell_at(at as int) == barrel_of(you)));
            assert(on(bb.pail_mask_of(me), at as int) == (bb.cell_at(at as int) == pail_of(me)));
            assert(on(bb.pail_mask_of(you), at as int) == (bb.cell_at(at as int) == pail_of(you)));
            assert(set == plane_has(bb@, i as int / 36, i as int % 36));
        }
        r.push(if set { one } else { zero });
        i = i + 1;
    }
    r
}

/// The planes are relative: both sides see mirrored positions alike.
pub proof fn law_planes_relative(s: GameState, plane: int, sq: int)
    requires
        s.cells.len() == 36,
        0 <= plane < 5,
        on_board(sq),
    ensures
        plane_has(mirror_state(s), plane, sq) == plane_has(s, plane, sq),
{
    lemma_flip(sq);
    lemma_flip(flip(sq));
}

} // verus!
