//! Binomial coefficients and the combinatorial number system on masks.
use vstd::prelude::*;
use crate::bits::{count_below, on};

verus! {

/// Number of `k`-element subsets of an `n`-element set, by Pascal's rule.
pub open spec fn choose_count(n: nat, k: nat) -> nat
    decreases n,
{
    if k == 0 {
        1
    } else if n == 0 {
        0
    } else {
        choose_count((n - 1) as nat, k) + choose_count((n - 1) as nat, (k - 1) as nat)
    }
}

proof fn lemma_choose_zero(n: nat, k: nat)
    requires
        k > n,
    ensures
        choose_count(n, k) == 0,
    decreases n,
{
    if n > 0 {
        lemma_choose_zero((n - 1) as nat, k);
        lemma_choose_zero((n - 1) as nat, (k - 1) as nat);
    }
}

/// A set has no subset larger than itself.
pub proof fn lemma_choose_small(k: nat)
    requires
        k > 0,
    ensures
        choose_count((k - 1) as nat, k) == 0,
{
    lemma_choose_zero((k - 1) as nat, k);
}

/// More elements, no fewer subsets.
pub proof fn lemma_choose_monotone(a: nat, b: nat, k: nat)
    requires
        a <= b,
    ensures
        choose_count(a, k) <= choose_count(b, k),
    decreases b,
{
    if a < b {
        lemma_choose_monotone(a, (b - 1) as nat, k);
    }
}

/// `C(n, k + 1) * (k + 1) == C(n, k) * (n - k)`.
proof fn lemma_choose_step(n: nat, k: nat)
    requires
        k <= n,
    ensures
        choose_count(n, k + 1) * (k + 1) == choose_count(n, k) * (n - k),
    decreases n,
{
    let x = choose_count(n, k + 1) as int;
    let y = choose_count(n, k) as int;
    if k == n {
        lemma_choose_zero(n, k + 1);
        assert(x * (k + 1) == y * (n - k)) by (nonlinear_arith)
            requires
                n == k,
                x == 0,
        ;
    } else if k == 0 {
        let m = (n - 1) as nat;
        lemma_choose_step(m, 0);
        assert(x == choose_count(m, 1) + choose_count(m, 0));
        let z = choose_count(m, 1) as int;
        let one = choose_count(m, 0) as int;
        assert(x * (k + 1) == y * (n - k)) by (nonlinear_arith)
            requires
                k == 0,
                y == 1,
                one == 1,
                x == z + one,
                z * 1 == one * (m - 0),
                m == n - 1,
        ;
    } else {
        let m = (n - 1) as nat;
        let j = (k - 1) as nat;
        lemma_choose_step(m, k);
        lemma_choose_step(m, j);
        let a = choose_count(m, k + 1) as int;
        let b = choose_count(m, k) as int;
        let c = choose_count(m, j) as int;
        assert(choose_count(n, k + 1) == a + b);
        assert(choose_count(n, k) == b + c);
        assert((a + b) * (k + 1) == (b + c) * (n - k)) by (nonlinear_arith)
            requires
                a * (k + 1) == b * (n - 1 - k),
                b * k == c * (n - 1 - (k - 1)),
        ;
    }
}

/// Values used by the phases: small arguments stay small.
proof fn lemma_choose_bound(n: nat, k: nat)
    requires
        n <= 36,
        k <= 4,
    ensures
        choose_count(n, k) <= 60000,
{
    lemma_choose_monotone(n, 36, k);
    lemma_choose_36();
}

proof fn lemma_choose_row(n: nat)
    requires
        n > 0,
    ensures
        choose_count(n, 0) == 1,
        choose_count(n, 1) == choose_count((n - 1) as nat, 1) + 1,
        choose_count(n, 2) == choose_count((n - 1) as nat, 2) + choose_count((n - 1) as nat, 1),
        choose_count(n, 3) == choose_count((n - 1) as nat, 3) + choose_count((n - 1) as nat, 2),
        choose_count(n, 4) == choose_count((n - 1) as nat, 4) + choose_count((n - 1) as nat, 3),
{
    assert(choose_count((n - 1) as nat, 0) == 1);
}

/// Closed forms for up to four elements.
proof fn lemma_choose_closed(n: nat)
    ensures
        choose_count(n, 1) == n,
        choose_count(n, 2) * 2 == n * (n - 1),
        choose_count(n, 3) * 6 == n * (n - 1) * (n - 2),
        choose_count(n, 4) * 24 == n * (n - 1) * (n - 2) * (n - 3),
    decreases n,
{
    if n > 0 {
        let m = (n - 1) as nat;
        lemma_choose_closed(m);
        lemma_choose_row(n);
        let c2 = choose_count(m, 2) as int;
        let c3 = choose_count(m, 3) as int;
        let c4 = choose_count(m, 4) as int;
        let x = m as int;
        assert((c2 + x) * 2 == (x + 1) * x) by (nonlinear_arith)
            requires
                c2 * 2 == x * (x - 1),
        ;
        assert((c3 + c2) * 6 == (x + 1) * x * (x - 1)) by (nonlinear_arith)
            requires
                c2 * 2 == x * (x - 1),
                c3 * 6 == x * (x - 1) * (x - 2),
        ;
        assert((c4 + c3) * 24 == (x + 1) * x * (x - 1) * (x - 2)) by (nonlinear_arith)
            requires
                c3 * 6 == x * (x - 1) * (x - 2),
                c4 * 24 == x * (x - 1) * (x - 2) * (x - 3),
        ;
    } else {
        assert(choose_count(0, 1) == 0 && choose_count(0, 2) == 0 && choose_count(0, 3) == 0 && choose_count(0, 4) == 0);
    }
}

proof fn lemma_choose_36()
    ensures
        choose_count(36, 0) == 1,
        choose_count(36, 1) == 36,
        choose_count(36, 2) == 630,
        choose_count(36, 3) == 7140,
        choose_count(36, 4) == 58905,
{
    lemma_choose_closed(36);
}

/// The counts over the thirty squares a colour may occupy.
pub proof fn lemma_choose_30()
    ensures
        choose_count(30, 0) == 1,
        choose_count(30, 1) == 30,
        choose_count(30, 2) == 435,
        choose_count(30, 3) == 4060,
        choose_count(30, 4) == 27405,
{
    lemma_choose_closed(30);
}

/// `n` choose `k`.
pub fn binom(n: usize, k: usize) -> (r: u64)
    requires
        n <= 36,
        k <= 4,
    ensures
        r == choose_count(n as nat, k as nat),
        r <= 60000,
{
    proof {
        lemma_choose_bound(n as nat, k as nat);
    }
    if k > n {
        proof {
            lemma_choose_zero(n as nat, k as nat);
        }
        return 0;
    }
    let mut r: u64 = 1;
    let mut i: usize = 0;
    while i < k
        invariant
            i <= k <= n <= 36,
            k <= 4,
            r == choose_count(n as nat, i as nat),
        decreases k - i,
    {
        proof {
            lemma_choose_bound(n as nat, i as nat);
            lemma_choose_step(n as nat, i as nat);
            let c = choose_count(n as nat, (i + 1) as nat) as int;
            let ri = r as int;
            let m = n - i;
            assert(0 <= ri * m <= 60000 * 36) by (nonlinear_arith)
                requires
                    0 <= ri <= 60000,
                    0 <= m <= 36,
            ;
            assert(ri * m / (i + 1) == c) by (nonlinear_arith)
                requires
                    c * (i + 1) == ri * m,
                    i + 1 > 0,
            ;
        }
        r = r * (n - i) as u64 / (i + 1) as u64;
        i = i + 1;
    }
    r
}

/// The rank of the members of `m` below `n` among the sets of their size: the
/// member at `p` that has `j` members below it contributes `C(p, j + 1)`.
pub open spec fn colex(m: u64, n: nat) -> nat
    decreases n,
{
    if n == 0 {
        0
    } else if on(m, n - 1) {
        colex(m, (n - 1) as nat) + choose_count((n - 1) as nat, count_below(m, (n - 1) as nat) + 1)
    } else {
        colex(m, (n - 1) as nat)
    }
}

/// Ranks are smaller than the number of sets of that size.
pub proof fn lemma_colex_bound(m: u64, n: nat)
    ensures
        colex(m, n) < choose_count(n, count_below(m, n)),
    decreases n,
{
    if n > 0 {
        let p = (n - 1) as nat;
        lemma_colex_bound(m, p);
        lemma_choose_monotone(p, n, count_below(m, p));
    }
}

/// Sets of one size with the same rank are the same set.
pub proof fn lemma_colex_injective(a: u64, b: u64, n: nat)
    requires
        n <= 64,
        count_below(a, n) == count_below(b, n),
        colex(a, n) == colex(b, n),
    ensures
        forall|s: int| 0 <= s < n ==> on(a, s) == on(b, s),
    decreases n,
{
    if n > 0 {
        let p = (n - 1) as nat;
        lemma_colex_bound(a, p);
        lemma_colex_bound(b, p);
        if on(a, n - 1) == on(b, n - 1) {
            lemma_colex_injective(a, b, p);
        }
    }
}

/// The contributions of the members in `[n, top)` when `k` members stand below.
pub open spec fn colex_above(m: u64, n: int, top: int, k: nat) -> nat
    decreases top - n,
{
    if n >= top {
        0
    } else if on(m, n) {
        choose_count(n as nat, k + 1) + colex_above(m, n + 1, top, k + 1)
    } else {
        colex_above(m, n + 1, top, k)
    }
}

/// A rank splits at any square.
pub proof fn lemma_colex_split(m: u64, n: int, top: int)
    requires
        0 <= n <= top,
    ensures
        colex(m, top as nat) == colex(m, n as nat) + colex_above(m, n, top, count_below(m, n as nat)),
    decreases top - n,
{
    if n < top {
        lemma_colex_split(m, n + 1, top);
    }
}

/// Squares without members contribute nothing.
pub proof fn lemma_colex_above_gap(m: u64, n: int, mid: int, top: int, k: nat)
    requires
        n <= mid <= top,
        forall|s: int| n <= s < mid ==> !on(m, s),
    ensures
        colex_above(m, n, top, k) == colex_above(m, mid, top, k),
    decreases mid - n,
{
    if n < mid {
        lemma_colex_above_gap(m, n + 1, mid, top, k);
    }
}

/// Only the members in the range matter.
pub proof fn lemma_colex_above_same(a: u64, b: u64, n: int, top: int, k: nat)
    requires
        forall|s: int| n <= s < top ==> on(a, s) == on(b, s),
    ensures
        colex_above(a, n, top, k) == colex_above(b, n, top, k),
    decreases top - n,
{
    if n < top {
        lemma_colex_above_same(a, b, n + 1, top, if on(a, n) { k + 1 } else { k });
    }
}

} // verus!
