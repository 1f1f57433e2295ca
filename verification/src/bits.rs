//! Single-precision numbers by their bit patterns.

use vstd::prelude::*;

verus! {

/// The near plane, 0.2: what is no deeper is not drawn.
pub const NEAR: u32 = 0x3e4c_cccd;

/// The low-pass on the diagonal of a projected covariance, 0.3.
pub const BLUR_EPS: u32 = 0x3e99_999a;

/// The bit pattern of zero.
pub const ZERO: u32 = 0;

/// The place of a number in the total order of IEEE 754: negative numbers by decreasing
/// magnitude, then the others by increasing magnitude, with infinities and NaNs outside of the
/// finite numbers, and negative zero right below zero.
pub open spec fn order_key(bits: u32) -> int {
    if bits < 0x8000_0000 {
        bits as int
    } else {
        0x8000_0000 - bits - 1
    }
}

/// The place of a number in the total order of IEEE 754.
pub fn total_key(bits: u32) -> (key: i64)
    ensures
        key == order_key(bits),
{
    if bits < 0x8000_0000 {
        bits as i64
    } else {
        0x8000_0000i64 - bits as i64 - 1
    }
}

/// Whether the pattern is that of no number.
pub open spec fn is_nan(bits: u32) -> bool {
    bits % 0x8000_0000 > 0x7f80_0000
}

/// Whether a gaussian of this depth is left out: it is not deeper than the near plane.
pub open spec fn is_culled(depth: u32) -> bool {
    !is_nan(depth) && order_key(depth) <= order_key(NEAR)
}

/// Whether a gaussian of this depth is left out.
pub fn culled(depth: u32) -> (yes: bool)
    ensures
        yes == is_culled(depth),
{
    depth % 0x8000_0000 <= 0x7f80_0000 && total_key(depth) <= total_key(NEAR)
}

/// No two bit patterns have the same place in the total order.
pub proof fn lemma_order_key_injective(a: u32, b: u32)
    requires
        order_key(a) == order_key(b),
    ensures
        a == b,
{
}

/// The order is that of the numbers: among patterns without a sign the larger one is the larger
/// number, among patterns with a sign the smaller one is, and numbers with a sign come first.
pub proof fn lemma_order_key_monotone(a: u32, b: u32)
    ensures
        a < b && b < 0x8000_0000 ==> order_key(a) < order_key(b),
        a < b && a >= 0x8000_0000 ==> order_key(a) > order_key(b),
        a >= 0x8000_0000 && b < 0x8000_0000 ==> order_key(a) < order_key(b),
{
}

/// Culled is what is no deeper than 0.2: of patterns without a sign all up to that of 0.2, and of
/// patterns with a sign all up to that of minus infinity, but no NaN.
pub proof fn lemma_near_plane(depth: u32)
    ensures
        depth < 0x8000_0000 ==> (is_culled(depth) <==> depth <= 0x3e4c_cccd),
        depth >= 0x8000_0000 ==> (is_culled(depth) <==> depth <= 0xff80_0000),
        is_nan(depth) <==> 0x7f80_0000 < depth < 0x8000_0000 || 0xff80_0000 < depth,
{
}

/// What is culled stays culled where it is nearer, and what is drawn stays drawn where it is
/// farther.
pub proof fn lemma_culling_is_monotone(near: u32, far: u32)
    requires
        order_key(near) <= order_key(far),
        !is_nan(near),
        !is_nan(far),
    ensures
        is_culled(far) ==> is_culled(near),
{
}

} // verus!
