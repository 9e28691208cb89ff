//! Ordered integer keys for depths given as IEEE-754 single-precision bits.
use vstd::prelude::*;
use crate::framebuffer::FAR_DEPTH;

verus! {

/// The bits of a single-precision value without its sign: its magnitude.
pub open spec fn magnitude(bits: u32) -> int {
    bits as int % 0x8000_0000
}

/// A value is not a number when its magnitude lies above that of infinity.
pub open spec fn is_nan(bits: u32) -> bool {
    magnitude(bits) > 0x7F80_0000
}

/// The magnitude with the value's sign: for numbers this orders as the
/// values do, and gives both zeros the same place.
pub open spec fn signed_magnitude(bits: u32) -> int {
    if bits < 0x8000_0000 {
        magnitude(bits)
    } else {
        -magnitude(bits)
    }
}

/// The key that `depth_key` returns, as a spec function.
pub open spec fn depth_key_spec(bits: u32) -> int {
    if is_nan(bits) {
        FAR_DEPTH as int
    } else {
        0x8000_0000 + signed_magnitude(bits)
    }
}

/// The depth key of a single-precision value given by its bits: keys compare
/// as the values do, both zeros share a key, positive infinity maps to
/// `FAR_DEPTH`, and so does every NaN, so a NaN depth never passes the depth test.
pub fn depth_key(bits: u32) -> (k: u32)
    ensures
        is_nan(bits) ==> k == FAR_DEPTH,
        !is_nan(bits) ==> k as int == 0x8000_0000 + signed_magnitude(bits),
        k as int == depth_key_spec(bits),
        k <= FAR_DEPTH,
{
    let mag = bits % 0x8000_0000;
    if mag > 0x7F80_0000 {
        FAR_DEPTH
    } else if bits < 0x8000_0000 {
        0x8000_0000 + mag
    } else {
        0x8000_0000 - mag
    }
}

/// Keys order numbers as their signed magnitudes order them.
pub proof fn lemma_depth_key_monotone(a: u32, b: u32)
    requires
        !is_nan(a),
        !is_nan(b),
    ensures
        signed_magnitude(a) < signed_magnitude(b) <==> depth_key_spec(a) < depth_key_spec(b),
        signed_magnitude(a) == signed_magnitude(b) <==> depth_key_spec(a) == depth_key_spec(b),
{
}

} // verus!
