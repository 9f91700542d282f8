//! Sixteen-lane integer arithmetic of the `wide` crate on plain arrays.
use vstd::prelude::*;

verus! {

/// The nearest sixteen-bit value.
pub open spec fn sat16(x: int) -> i16 {
    if x > 32767 {
        32767
    } else if x < -32768 {
        -32768i16
    } else {
        x as i16
    }
}

/// The 32-bit value congruent to `x`.
pub open spec fn wrap32(x: int) -> i32 {
    let m = x % 0x1_0000_0000;
    if m >= 0x8000_0000 {
        (m - 0x1_0000_0000) as i32
    } else {
        m as i32
    }
}

/// Wrapping early or late gives the same.
pub proof fn lemma_wrap32_sum(x: int, y: int)
    ensures
        wrap32(wrap32(x) + y) == wrap32(x + y),
        wrap32(x + wrap32(y)) == wrap32(x + y),
{
    lemma_wrap32_mod(x);
    lemma_wrap32_mod(y);
    let m = 0x1_0000_0000int;
    assert((wrap32(x) + y) % m == (x + y) % m) by {
        vstd::arithmetic::div_mod::lemma_add_mod_noop(wrap32(x) as int, y, m);
        vstd::arithmetic::div_mod::lemma_add_mod_noop(x, y, m);
    }
    assert((x + wrap32(y)) % m == (x + y) % m) by {
        vstd::arithmetic::div_mod::lemma_add_mod_noop(x, wrap32(y) as int, m);
        vstd::arithmetic::div_mod::lemma_add_mod_noop(x, y, m);
    }
}

proof fn lemma_wrap32_mod(x: int)
    ensures
        (wrap32(x) as int) % 0x1_0000_0000 == x % 0x1_0000_0000,
{
    let m = x % 0x1_0000_0000;
    if m >= 0x8000_0000 {
        assert((m - 0x1_0000_0000) % 0x1_0000_0000 == m);
    }
}

pub proof fn lemma_wrap32_small(x: int)
    requires
        -0x8000_0000 <= x < 0x8000_0000,
    ensures
        wrap32(x) == x,
{
}

/// Lane-wise sum by `wide::i16x16::saturating_add`: each lane is the sum of the
/// two lanes, held at the ends of the sixteen-bit range.
#[verifier::external_body]
pub(crate) fn add_lanes(a: [i16; 16], b: [i16; 16]) -> (r: [i16; 16])
    ensures
        forall|i: int| 0 <= i < 16 ==> #[trigger] r@[i] == sat16(a@[i] + b@[i]),
{
    wide::i16x16::new(a).saturating_add(wide::i16x16::new(b)).to_array()
}

/// Lane-wise difference by `wide::i16x16::saturating_sub`: each lane is the
/// difference of the two lanes, held at the ends of the sixteen-bit range.
#[verifier::external_body]
pub(crate) fn sub_lanes(a: [i16; 16], b: [i16; 16]) -> (r: [i16; 16])
    ensures
        forall|i: int| 0 <= i < 16 ==> #[trigger] r@[i] == sat16(a@[i] - b@[i]),
{
    wide::i16x16::new(a).saturating_sub(wide::i16x16::new(b)).to_array()
}

/// Products summed in pairs by `wide::i16x16::dot`: lane `i` is the sum of the
/// products of lanes `2 * i` and `2 * i + 1`. With no lane of `a` at the lower
/// end of the range the sum fits into 32 bits.
#[verifier::external_body]
pub(crate) fn dot_lanes(a: [i16; 16], b: [i16; 16]) -> (r: [i32; 8])
    requires
        forall|i: int| 0 <= i < 16 ==> #[trigger] a@[i] > i16::MIN,
    ensures
        forall|i: int|
            0 <= i < 8 ==> #[trigger] r@[i] == a@[2 * i] * b@[2 * i] + a@[2 * i + 1] * b@[2 * i + 1],
{
    wide::i16x16::new(a).dot(wide::i16x16::new(b)).to_array()
}

/// Lane-wise sum by the addition of `wide::i32x8`, which wraps around.
#[verifier::external_body]
pub(crate) fn add_wide_lanes(a: [i32; 8], b: [i32; 8]) -> (r: [i32; 8])
    ensures
        forall|i: int| 0 <= i < 8 ==> #[trigger] r@[i] == wrap32(a@[i] + b@[i]),
{
    (wide::i32x8::new(a) + wide::i32x8::new(b)).to_array()
}

/// The sum of all lanes by `wide::i32x8::reduce_add`, which wraps around.
#[verifier::external_body]
pub(crate) fn sum_lanes(a: [i32; 8]) -> (r: i32)
    ensures
        r == wrap32(a@[0] + a@[1] + a@[2] + a@[3] + a@[4] + a@[5] + a@[6] + a@[7]),
{
    wide::i32x8::new(a).reduce_add()
}

} // verus!
