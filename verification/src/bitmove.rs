//! Moves packed into a word and a short path.
use vstd::prelude::*;
use crate::rules::Action;

verus! {

/// The code for "no square" in the packed fields.
const NO_POS: u8 = 63;

/// A move packed for the search.
///
/// Bits 0-5 hold the destination, 6-11 the origin (63 for none), 12-17 the pail
/// square (63 for none), bit 18 marks a barrel placement, 19-23 hold the path
/// length and bit 24 marks a pail sub-move.
#[derive(Clone, Copy, PartialEq, Eq, Debug)]
pub struct BitMove {
    pub packed: u32,
    /// The squares the barrel lands on, in order.
    pub path: [u8; 8],
}

/// The packed word of six fields.
pub open spec fn pack(to: u32, from: u32, pail: u32, placement: u32, len: u32, pail_only: u32) -> u32 {
    to | (from << 6) | (pail << 12) | (placement << 18) | (len << 19) | (pail_only << 24)
}

pub open spec fn to_field(packed: u32) -> u32 {
    packed & 0x3f
}

pub open spec fn from_field(packed: u32) -> u32 {
    (packed >> 6) & 0x3f
}

pub open spec fn pail_field(packed: u32) -> u32 {
    (packed >> 12) & 0x3f
}

pub open spec fn placement_field(packed: u32) -> u32 {
    (packed >> 18) & 1
}

pub open spec fn len_field(packed: u32) -> u32 {
    (packed >> 19) & 0x1f
}

pub open spec fn pail_only_field(packed: u32) -> u32 {
    (packed >> 24) & 1
}

proof fn lemma_pack(to: u32, from: u32, pail: u32, placement: u32, len: u32, pail_only: u32)
    by (bit_vector)
    requires
        to < 64,
        from < 64,
        pail < 64,
        placement < 2,
        len < 32,
        pail_only < 2,
    ensures
        to_field(pack(to, from, pail, placement, len, pail_only)) == to,
        from_field(pack(to, from, pail, placement, len, pail_only)) == from,
        pail_field(pack(to, from, pail, placement, len, pail_only)) == pail,
        placement_field(pack(to, from, pail, placement, len, pail_only)) == placement,
        len_field(pack(to, from, pail, placement, len, pail_only)) == len,
        pail_only_field(pack(to, from, pail, placement, len, pail_only)) == pail_only,
{
}

proof fn lemma_field_bounds(packed: u32)
    by (bit_vector)
    ensures
        to_field(packed) < 64,
        from_field(packed) < 64,
        pail_field(packed) < 64,
        len_field(packed) < 32,
{
}

impl BitMove {
    pub open spec fn to_sq(&self) -> int {
        to_field(self.packed) as int
    }

    pub open spec fn from_code(&self) -> int {
        from_field(self.packed) as int
    }

    pub open spec fn pail_code(&self) -> int {
        pail_field(self.packed) as int
    }

    pub open spec fn places_barrel(&self) -> bool {
        placement_field(self.packed) == 1
    }

    pub open spec fn pail_only(&self) -> bool {
        pail_only_field(self.packed) == 1
    }

    pub open spec fn len(&self) -> int {
        len_field(self.packed) as int
    }

    /// The landing squares in order.
    pub open spec fn landings(&self) -> Seq<int> {
        Seq::new(self.len() as nat, |i: int| self.path@[i] as int)
    }

    /// The action this move stands for, its pail square aside.
    pub open spec fn view(&self) -> Action {
        if self.pail_only() {
            Action::Pail { at: self.pail_code() }
        } else if self.places_barrel() {
            Action::Place { to: self.to_sq() }
        } else {
            Action::Walk { from: self.from_code(), path: self.landings() }
        }
    }

    /// The fields agree with each other and name squares of the board.
    pub open spec fn valid(&self) -> bool {
        &&& self.to_sq() < 36
        &&& 1 <= self.len() <= 8
        &&& self.path@[self.len() - 1] == self.to_sq()
        &&& self.pail_only() ==> !self.places_barrel() && self.pail_code() == self.to_sq() && self.from_code() == 63
        &&& !self.pail_only() ==> (self.pail_code() == 63 || self.pail_code() < 36)
        &&& self.places_barrel() ==> self.from_code() == 63
        &&& !self.pail_only() && !self.places_barrel() ==> self.from_code() < 36
        &&& forall|i: int| 0 <= i < self.len() ==> #[trigger] self.path@[i] < 36
    }

    /// No pail comes with the barrel: the move is a single action.
    pub open spec fn single(&self) -> bool {
        self.pail_only() || self.pail_code() == 63
    }

    /// A new barrel on `barrel_to`, with an optional pail square.
    pub fn new_placement(barrel_to: u8, pail_pos: Option<u8>) -> (r: Self)
        requires
            barrel_to < 64,
            pail_pos matches Some(p) ==> p < 64,
        ensures
            r.to_sq() == barrel_to,
            r.from_code() == 63,
            r.pail_code() == (if let Some(p) = pail_pos { p as int } else { 63 }),
            r.places_barrel(),
            !r.pail_only(),
            r.len() == 1,
            r.path@ == seq![barrel_to, 0u8, 0u8, 0u8, 0u8, 0u8, 0u8, 0u8],
            r.packed == pack(
                barrel_to as u32,
                63,
                if let Some(p) = pail_pos {
                    p as u32
                } else {
                    63
                },
                1,
                1,
                0,
            ),
            barrel_to < 36 && pail_pos is None ==> r.valid() && r.single() && r@ == (Action::Place { to: barrel_to as int }),
    {
        let pail: u8 = match pail_pos {
            Some(p) => p,
            None => NO_POS,
        };
        let packed: u32 = (barrel_to as u32) | ((NO_POS as u32) << 6) | ((pail as u32) << 12) | (1u32 << 18) | (1u32
            << 19) | (0u32 << 24);
        proof {
            lemma_pack(barrel_to as u32, 63, pail as u32, 1, 1, 0);
        }
        let r = BitMove { packed, path: [barrel_to, 0, 0, 0, 0, 0, 0, 0] };
        assert(r.path@ =~= seq![barrel_to, 0u8, 0u8, 0u8, 0u8, 0u8, 0u8, 0u8]);
        r
    }

    /// The pail sub-move: the pail goes to `pail_sq` and the turn goes on.
    pub fn new_pail_placement(pail_sq: u8) -> (r: Self)
        requires
            pail_sq < 64,
        ensures
            r.to_sq() == pail_sq,
            r.from_code() == 63,
            r.pail_code() == pail_sq,
            !r.places_barrel(),
            r.pail_only(),
            r.len() == 1,
            r.path@ == seq![pail_sq, 0u8, 0u8, 0u8, 0u8, 0u8, 0u8, 0u8],
            r.packed == pack(pail_sq as u32, 63, pail_sq as u32, 0, 1, 1),
            pail_sq < 36 ==> r.valid() && r.single() && r@ == (Action::Pail { at: pail_sq as int }),
    {
        let packed: u32 = (pail_sq as u32) | ((NO_POS as u32) << 6) | ((pail_sq as u32) << 12) | (0u32 << 18) | (1u32
            << 19) | (1u32 << 24);
        proof {
            lemma_pack(pail_sq as u32, 63, pail_sq as u32, 0, 1, 1);
        }
        let r = BitMove { packed, path: [pail_sq, 0, 0, 0, 0, 0, 0, 0] };
        assert(r.path@ =~= seq![pail_sq, 0u8, 0u8, 0u8, 0u8, 0u8, 0u8, 0u8]);
        r
    }

    /// A barrel from `barrel_from` along `path`. The first eight squares of the
    /// path are kept.
    pub fn new_move(barrel_from: u8, barrel_to: u8, path: &[u8], pail_pos: Option<u8>) -> (r: Self)
        requires
            barrel_from < 64,
            barrel_to < 64,
            path@.len() < 32,
            pail_pos matches Some(p) ==> p < 64,
        ensures
            r.to_sq() == barrel_to,
            r.from_code() == barrel_from,
            r.pail_code() == (if let Some(p) = pail_pos { p as int } else { 63 }),
            !r.places_barrel(),
            !r.pail_only(),
            r.len() == path@.len(),
            r.packed == pack(
                barrel_to as u32,
                barrel_from as u32,
                if let Some(p) = pail_pos {
                    p as u32
                } else {
                    63
                },
                0,
                path@.len() as u32,
                0,
            ),
            forall|i: int| 0 <= i < 8 ==> #[trigger] r.path@[i] == (if i < path@.len() { path@[i] } else { 0u8 }),
    {
        let pail: u8 = match pail_pos {
            Some(p) => p,
            None => NO_POS,
        };
        let path_len: u32 = path.len() as u32;
        let packed: u32 = (barrel_to as u32) | ((barrel_from as u32) << 6) | ((pail as u32) << 12) | (0u32 << 18) | (
        path_len << 19) | (0u32 << 24);
        proof {
            lemma_pack(barrel_to as u32, barrel_from as u32, pail as u32, 0, path_len, 0);
        }
        let mut path_arr: [u8; 8] = [0u8; 8];
        let mut i: usize = 0;
        while i < 8 && i < path.len()
            invariant
                i <= 8,
                i <= path@.len(),
                forall|k: int| 0 <= k < 8 ==> #[trigger] path_arr@[k] == (if k < i { path@[k] } else { 0u8 }),
            decreases 8 - i,
        {
            path_arr[i] = path[i];
            i = i + 1;
        }
        BitMove { packed, path: path_arr }
    }

    pub fn barrel_to(&self) -> (r: u8)
        ensures
            r == self.to_sq(),
            r < 64,
    {
        proof {
            lemma_field_bounds(self.packed);
        }
        (self.packed & 0x3F) as u8
    }

    pub fn barrel_from(&self) -> (r: Option<u8>)
        ensures
            r == (if self.from_code() == 63 { None } else { Some(self.from_code() as u8) }),
            r matches Some(f) ==> f < 63 && f == self.from_code(),
    {
        proof {
            lemma_field_bounds(self.packed);
        }
        let from: u8 = ((self.packed >> 6) & 0x3F) as u8;
        if from == NO_POS {
            None
        } else {
            Some(from)
        }
    }

    pub fn pail_pos(&self) -> (r: Option<u8>)
        ensures
            r == (if self.pail_code() == 63 { None } else { Some(self.pail_code() as u8) }),
            r matches Some(f) ==> f < 63 && f == self.pail_code(),
    {
        proof {
            lemma_field_bounds(self.packed);
        }
        let pail: u8 = ((self.packed >> 12) & 0x3F) as u8;
        if pail == NO_POS {
            None
        } else {
            Some(pail)
        }
    }

    pub fn is_placement(&self) -> (r: bool)
        ensures
            r == self.places_barrel(),
    {
        (self.packed >> 18) & 1 == 1
    }

    pub fn is_pail_placement(&self) -> (r: bool)
        ensures
            r == self.pail_only(),
    {
        (self.packed >> 24) & 1 == 1
    }

    pub fn path_len(&self) -> (r: usize)
        ensures
            r == self.len(),
            r < 32,
    {
        proof {
            lemma_field_bounds(self.packed);
        }
        ((self.packed >> 19) & 0x1F) as usize
    }

    /// Both moves are the same word with the same path.
    pub fn same(&self, other: &BitMove) -> (r: bool)
        ensures
            r == (self.packed == other.packed && self.path@ == other.path@),
    {
        if self.packed != other.packed {
            return false;
        }
        let mut i: usize = 0;
        while i < 8
            invariant
                i <= 8,
                forall|k: int| 0 <= k < i ==> self.path@[k] == other.path@[k],
            decreases 8 - i,
        {
            if self.path[i] != other.path[i] {
                return false;
            }
            i = i + 1;
        }
        assert(self.path@ =~= other.path@);
        true
    }
}

} // verus!
