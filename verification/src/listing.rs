//! Lists that enumerate a predicate: every element once, nothing else.
use vstd::prelude::*;

verus! {

/// `x` stands in `list` at or behind `start`.
pub open spec fn found<A>(list: Seq<A>, start: int, x: A) -> bool {
    exists|i: int| start <= i < list.len() && #[trigger] list[i] == x
}

/// `new` is `old` followed by exactly the values of `kind`, each once.
#[verifier::opaque]
pub open spec fn gains<A>(old_list: Seq<A>, new_list: Seq<A>, kind: spec_fn(A) -> bool) -> bool {
    &&& old_list.len() <= new_list.len()
    &&& forall|i: int| 0 <= i < old_list.len() ==> #[trigger] new_list[i] == old_list[i]
    &&& forall|i: int| old_list.len() <= i < new_list.len() ==> kind(#[trigger] new_list[i])
    &&& forall|x: A| #[trigger] kind(x) ==> found(new_list, old_list.len() as int, x)
    &&& forall|i: int, j: int|
        old_list.len() <= i < j < new_list.len() ==> #[trigger] new_list[i] != #[trigger] new_list[j]
}

pub proof fn lemma_gains_push<A>(
    a: Seq<A>,
    b: Seq<A>,
    k1: spec_fn(A) -> bool,
    m: A,
    k2: spec_fn(A) -> bool,
)
    requires
        gains(a, b, k1),
        !k1(m),
        forall|x: A| #[trigger] k2(x) == (k1(x) || x == m),
    ensures
        gains(a, b.push(m), k2),
{
    reveal(gains);
    let c = b.push(m);
    assert forall|x: A| #[trigger] k2(x) implies found(c, a.len() as int, x) by {
        if k1(x) {
            assert(found(b, a.len() as int, x));
            let i = choose|i: int| a.len() <= i < b.len() && #[trigger] b[i] == x;
            assert(c[i] == x);
        } else {
            assert(c[b.len() as int] == x);
        }
    }
    assert forall|i: int| a.len() <= i < c.len() implies k2(#[trigger] c[i]) by {
        if i < b.len() {
            assert(c[i] == b[i]);
            assert(k1(b[i]));
        }
    }
    assert forall|i: int, j: int| a.len() <= i < j < c.len() implies #[trigger] c[i] != #[trigger] c[j] by {
        assert(c[i] == b[i]);
        assert(k1(b[i]));
        if j < b.len() {
            assert(c[j] == b[j]);
        }
    }
}

pub proof fn lemma_gains_trans<A>(
    a: Seq<A>,
    b: Seq<A>,
    c: Seq<A>,
    k1: spec_fn(A) -> bool,
    k2: spec_fn(A) -> bool,
    k: spec_fn(A) -> bool,
)
    requires
        gains(a, b, k1),
        gains(b, c, k2),
        forall|x: A| #[trigger] k(x) == (k1(x) || k2(x)),
        forall|x: A| !(#[trigger] k1(x) && k2(x)),
    ensures
        gains(a, c, k),
{
    reveal(gains);
    assert forall|i: int| 0 <= i < a.len() implies #[trigger] c[i] == a[i] by {
        assert(b[i] == a[i]);
    }
    assert forall|i: int| a.len() <= i < c.len() implies k(#[trigger] c[i]) by {
        if i < b.len() {
            assert(c[i] == b[i]);
            assert(k1(b[i]));
        } else {
            assert(k2(c[i]));
        }
    }
    assert forall|x: A| #[trigger] k(x) implies found(c, a.len() as int, x) by {
        if k1(x) {
            assert(found(b, a.len() as int, x));
            let i = choose|i: int| a.len() <= i < b.len() && #[trigger] b[i] == x;
            assert(c[i] == x);
        } else {
            assert(k2(x));
            assert(found(c, b.len() as int, x));
            let i = choose|i: int| b.len() <= i < c.len() && #[trigger] c[i] == x;
            assert(c[i] == x);
        }
    }
    assert forall|i: int, j: int| a.len() <= i < j < c.len() implies #[trigger] c[i] != #[trigger] c[j] by {
        if i < b.len() {
            assert(c[i] == b[i]);
            assert(k1(b[i]));
            if j < b.len() {
                assert(c[j] == b[j]);
            } else {
                assert(k2(c[j]));
            }
        }
    }
}

pub proof fn lemma_gains_nothing<A>(a: Seq<A>, k: spec_fn(A) -> bool)
    requires
        forall|x: A| !#[trigger] k(x),
    ensures
        gains(a, a, k),
{
    reveal(gains);
}

pub proof fn lemma_gains_same<A>(a: Seq<A>, b: Seq<A>, k1: spec_fn(A) -> bool, k2: spec_fn(A) -> bool)
    requires
        gains(a, b, k1),
        forall|x: A| #[trigger] k1(x) == k2(x),
    ensures
        gains(a, b, k2),
{
    reveal(gains);
    assert forall|x: A| #[trigger] k2(x) implies found(b, a.len() as int, x) by {
        assert(k1(x));
    }
    assert forall|i: int| a.len() <= i < b.len() implies k2(#[trigger] b[i]) by {
        assert(k1(b[i]));
    }
}

} // verus!
