//! A small generator of pseudo-random numbers for openings and sampling.
use vstd::prelude::*;

verus! {

/// A xorshift generator on 64 bits. Its state is never zero.
pub struct Rng {
    pub state: u64,
}

/// The state that follows a state.
pub open spec fn xorshift(x: u64) -> u64 {
    let a = x ^ (x << 13u64);
    let b = a ^ (a >> 7u64);
    b ^ (b << 17u64)
}

/// A state other than zero is followed by one other than zero, and different
/// states by different states.
pub proof fn law_xorshift_permutes(x: u64, y: u64)
    ensures
        x != 0 ==> xorshift(x) != 0,
        x != y ==> xorshift(x) != xorshift(y),
{
    let a = x ^ (x << 13u64);
    let c = y ^ (y << 13u64);
    lemma_shifts(x, 0);
    lemma_shifts(x, y);
}

proof fn lemma_shifts(x: u64, y: u64)
    ensures
        x != y ==> xorshift(x) != xorshift(y),
        xorshift(0) == 0,
{
    let a = x ^ (x << 13u64);
    let c = y ^ (y << 13u64);
    let b = a ^ (a >> 7u64);
    let d = c ^ (c >> 7u64);
    assert(x != y ==> a != c) by (bit_vector)
        requires
            a == x ^ (x << 13u64),
            c == y ^ (y << 13u64),
    ;
    assert(a != c ==> b != d) by (bit_vector)
        requires
            b == a ^ (a >> 7u64),
            d == c ^ (c >> 7u64),
    ;
    assert(b != d ==> b ^ (b << 17u64) != d ^ (d << 17u64)) by (bit_vector);
    assert(0u64 ^ (0u64 << 13u64) == 0 && 0u64 ^ (0u64 >> 7u64) == 0 && 0u64 ^ (0u64 << 17u64) == 0) by (bit_vector);
}

/// The 53 leading bits of a number, as a fraction of 2^53.
pub open spec fn fraction_of(x: u64) -> u64 {
    x / 2048
}

impl Rng {
    pub open spec fn wf(&self) -> bool {
        self.state != 0
    }

    /// A generator started from a seed; zero counts as one.
    pub fn seeded(seed: u64) -> (r: Self)
        ensures
            r.wf(),
            r.state == if seed == 0 {
                1
            } else {
                seed
            },
    {
        Rng { state: if seed == 0 { 1 } else { seed } }
    }

    /// The next number.
    pub fn next_u64(&mut self) -> (r: u64)
        requires
            old(self).wf(),
        ensures
            final(self).wf(),
            r == xorshift(old(self).state),
            final(self).state == r,
    {
        proof {
            law_xorshift_permutes(self.state, 0);
        }
        self.state = self.state ^ (self.state << 13u64);
        self.state = self.state ^ (self.state >> 7u64);
        self.state = self.state ^ (self.state << 17u64);
        self.state
    }

    /// A number below `n`.
    pub fn next_usize(&mut self, n: usize) -> (r: usize)
        requires
            old(self).wf(),
            n > 0,
        ensures
            final(self).wf(),
            final(self).state == xorshift(old(self).state),
            r == xorshift(old(self).state) as int % n as int,
            r < n,
    {
        (self.next_u64() % (n as u64)) as usize
    }

    /// The 53 leading bits of the next number: a fraction of 2^53.
    pub fn next_fraction(&mut self) -> (r: u64)
        requires
            old(self).wf(),
        ensures
            final(self).wf(),
            final(self).state == xorshift(old(self).state),
            r == fraction_of(xorshift(old(self).state)),
            r < 0x20_0000_0000_0000,
    {
        let x: u64 = self.next_u64();
        x / 2048
    }
}

} // verus!
