//! Sets of board squares packed into a `u64`, one bit per square.
//!
//! `on(m, s)` is the membership predicate that every contract speaks in; the
//! lemmas below say what each bit operation does to it.
use vstd::prelude::*;
use vstd::std_specs::bits::u64_trailing_zeros;
use vstd::std_specs::bits::axiom_u64_trailing_zeros;

verus! {

/// Square `s` is a member of the mask `m`.
pub open spec fn on(m: u64, s: int) -> bool {
    0 <= s < 64 && (m >> (s as u64)) & 1u64 == 1u64
}

/// Number of members of `m` below `n`.
pub open spec fn count_below(m: u64, n: nat) -> nat
    decreases n,
{
    if n == 0 {
        0
    } else {
        count_below(m, (n - 1) as nat) + if on(m, n - 1) { 1nat } else { 0nat }
    }
}

/// Number of members of `m`.
pub open spec fn popcount(m: u64) -> nat {
    count_below(m, 64)
}

/// Members of `m` in ascending order, starting at square `from`.
pub open spec fn members_from(m: u64, from: int) -> Seq<int>
    decreases 64 - from,
{
    if from >= 64 {
        Seq::empty()
    } else if on(m, from) {
        seq![from] + members_from(m, from + 1)
    } else {
        members_from(m, from + 1)
    }
}

/// Membership in unions, intersections, complements and symmetric differences.
pub broadcast proof fn lemma_has_or(a: u64, b: u64, s: int)
    ensures
        #[trigger] on(a | b, s) == (on(a, s) || on(b, s)),
{
    if 0 <= s < 64 {
        let k = s as u64;
        assert(((a | b) >> k) & 1u64 == 1u64 <==> (a >> k) & 1u64 == 1u64 || (b >> k) & 1u64 == 1u64)
            by (bit_vector);
    }
}

pub broadcast proof fn lemma_has_and(a: u64, b: u64, s: int)
    ensures
        #[trigger] on(a & b, s) == (on(a, s) && on(b, s)),
{
    if 0 <= s < 64 {
        let k = s as u64;
        assert(((a & b) >> k) & 1u64 == 1u64 <==> (a >> k) & 1u64 == 1u64 && (b >> k) & 1u64 == 1u64)
            by (bit_vector);
    }
}

pub broadcast proof fn lemma_has_not(a: u64, s: int)
    ensures
        #[trigger] on(!a, s) == (0 <= s < 64 && !on(a, s)),
{
    if 0 <= s < 64 {
        let k = s as u64;
        assert(k < 64 ==> (((!a) >> k) & 1u64 == 1u64 <==> (a >> k) & 1u64 != 1u64)) by (bit_vector);
    }
}

/// A single shifted bit is the singleton set.
pub broadcast proof fn lemma_has_bit(k: u64, s: int)
    requires
        k < 64,
    ensures
        #[trigger] on(1u64 << k, s) == (s == k),
{
    if 0 <= s < 64 {
        let j = s as u64;
        assert(k < 64 && j < 64 ==> (((1u64 << k) >> j) & 1u64 == 1u64 <==> j == k)) by (bit_vector);
    }
}

pub broadcast proof fn lemma_has_zero(s: int)
    ensures
        #[trigger] on(0u64, s) == false,
{
    if 0 <= s < 64 {
        let k = s as u64;
        assert((0u64 >> k) & 1u64 == 0u64) by (bit_vector);
    }
}

pub broadcast group group_has {
    lemma_has_or,
    lemma_has_and,
    lemma_has_not,
    lemma_has_bit,
    lemma_has_zero,
}

/// Two masks with the same members are equal.
pub proof fn lemma_mask_ext(a: u64, b: u64)
    requires
        forall|s: int| 0 <= s < 64 ==> on(a, s) == on(b, s),
    ensures
        a == b,
{
    if a != b {
        let d = a ^ b;
        assert(a != b ==> a ^ b != 0) by (bit_vector);
        axiom_u64_trailing_zeros(d);
        let k = u64_trailing_zeros(d) as u64;
        assert((d >> k) & 1u64 == 1u64);
        assert(((a ^ b) >> k) & 1u64 == 1u64 ==> ((a >> k) & 1u64) != ((b >> k) & 1u64)) by (bit_vector);
        assert(((a >> k) & 1u64) < 2) by (bit_vector);
        assert(((b >> k) & 1u64) < 2) by (bit_vector);
        assert(on(a, k as int) == on(b, k as int));
    }
}

/// A nonempty mask has a least member, its number of trailing zeros, and
/// `m & (m - 1)` removes exactly that member.
pub proof fn lemma_lowest(m: u64)
    requires
        m != 0,
    ensures
        u64_trailing_zeros(m) < 64,
        on(m, u64_trailing_zeros(m) as int),
        forall|s: int| 0 <= s < u64_trailing_zeros(m) ==> !on(m, s),
        forall|s: int| #[trigger] on(m & (m - 1) as u64, s) == (on(m, s) && s != u64_trailing_zeros(m)),
        (m & (m - 1) as u64) < m,
{
    axiom_u64_trailing_zeros(m);
    let t = u64_trailing_zeros(m) as u64;
    assert forall|s: int| 0 <= s < t implies !on(m, s) by {
        assert((m >> (s as u64)) & 1u64 == 0u64);
    }
    let n = (m - 1) as u64;
    assert forall|s: int| #[trigger] on(m & n, s) == (on(m, s) && s != t) by {
        if 0 <= s < 64 {
            let k = s as u64;
            assert(m != 0 && n == m - 1 && t < 64 && k < 64 && (m >> t) & 1u64 == 1u64 && (t > 0 ==> m << ((64 - t) as u64) == 0)
                ==> (((m & n) >> k) & 1u64 == 1u64 <==> (m >> k) & 1u64 == 1u64 && k != t)) by (bit_vector);
        }
    }
    assert(m != 0 && n == m - 1 ==> m & n < m) by (bit_vector);
}

/// A mask is zero exactly when it has no member.
pub proof fn lemma_empty(m: u64)
    ensures
        m == 0 <==> forall|s: int| 0 <= s < 64 ==> !on(m, s),
{
    broadcast use group_has;
    if m != 0 {
        lemma_lowest(m);
    }
}

/// Number of trailing zeros, the least member of a nonempty mask.
pub fn lowest(m: u64) -> (r: usize)
    requires
        m != 0,
    ensures
        r < 64,
        on(m, r as int),
        forall|s: int| 0 <= s < r ==> !on(m, s),
        r == u64_trailing_zeros(m),
{
    proof {
        lemma_lowest(m);
    }
    m.trailing_zeros() as usize
}

/// Removes the least member.
pub fn drop_lowest(m: u64) -> (r: u64)
    requires
        m != 0,
    ensures
        forall|s: int| #[trigger] on(r, s) == (on(m, s) && s != u64_trailing_zeros(m)),
        r < m,
        r == m & (m - 1) as u64,
{
    proof {
        lemma_lowest(m);
    }
    m & (m - 1)
}

/// Removing one member lowers the count by one.
pub proof fn lemma_count_remove(a: u64, b: u64, t: int, n: nat)
    requires
        n <= 64,
        on(a, t),
        forall|s: int| #[trigger] on(b, s) == (on(a, s) && s != t),
    ensures
        count_below(a, n) == count_below(b, n) + if t < n { 1nat } else { 0nat },
    decreases n,
{
    if n > 0 {
        lemma_count_remove(a, b, t, (n - 1) as nat);
        assert(on(b, n - 1) == (on(a, n - 1) && n - 1 != t));
    }
}

pub proof fn lemma_count_bound(m: u64, n: nat)
    ensures
        count_below(m, n) <= n,
    decreases n,
{
    if n > 0 {
        lemma_count_bound(m, (n - 1) as nat);
    }
}

pub proof fn lemma_count_empty(m: u64, n: nat)
    requires
        forall|s: int| 0 <= s < n ==> !on(m, s),
    ensures
        count_below(m, n) == 0,
    decreases n,
{
    if n > 0 {
        lemma_count_empty(m, (n - 1) as nat);
        assert(!on(m, n - 1));
    }
}

/// Counts the members of a mask, one loop turn per member.
pub fn count_ones(m: u64) -> (r: u32)
    ensures
        r == popcount(m),
        r <= 64,
{
    let mut rest: u64 = m;
    let mut n: u32 = 0;
    proof {
        lemma_count_bound(m, 64);
    }
    while rest != 0
        invariant
            n + popcount(rest) == popcount(m),
            popcount(m) <= 64,
        decreases rest,
    {
        let ghost before = rest;
        rest = drop_lowest(rest);
        proof {
            lemma_lowest(before);
            lemma_count_remove(before, rest, u64_trailing_zeros(before) as int, 64);
        }
        n = n + 1;
    }
    proof {
        lemma_empty(rest);
        lemma_count_empty(rest, 64);
    }
    n
}

} // verus!
