//! The sample model: silence threshold comparison and the maximum
//! representable magnitude of a given bit depth.

use vstd::arithmetic::power2::pow2;
use vstd::bits::lemma_u64_shl_is_mul;
use vstd::bits::lemma_u64_pow2_no_overflow;
use vstd::prelude::*;

verus! {

/// A sample is silent when it lies within the symmetric band
/// `[-threshold, threshold]` around zero.
pub open spec fn sample_silent(s: i32, threshold: i32) -> bool {
    -(threshold as int) <= s as int && s as int <= threshold as int
}

/// Tests whether one sample is within the deviation threshold.
pub fn is_silent(s: i32, threshold: i32) -> (r: bool)
    requires
        threshold >= 0,
    ensures
        r == sample_silent(s, threshold),
{
    !(s > threshold || s < -threshold)
}

/// The largest value a `bits`-bit integer can store: `2^(bits - sign) - 1`,
/// where `sign` is 1 for a signed integer and 0 otherwise.
pub open spec fn max_magnitude(bits: u32, signed: bool) -> int {
    pow2((bits - if signed {
        1int
    } else {
        0int
    }) as nat) - 1
}

/// Returns the largest number that a `bits`-bit (signed?) integer can store.
pub fn int_bit_to_max(bits: u32, signed: bool) -> (r: u64)
    requires
        signed ==> 1 <= bits <= 64,
        !signed ==> bits <= 63,
    ensures
        r == max_magnitude(bits, signed),
{
    let sign: u32 = if signed {
        1
    } else {
        0
    };
    let e: u64 = (bits - sign) as u64;
    proof {
        lemma_u64_pow2_no_overflow(e as nat);
        lemma_u64_shl_is_mul(1u64, e);
    }
    (1u64 << e) - 1
}

/// Integer PCM is supported at 16, 24 and 32 bits per sample; every other
/// depth is rejected.
pub fn supported_bit_depth(bits: u16) -> (r: bool)
    ensures
        r == (bits == 16 || bits == 24 || bits == 32),
{
    bits == 16 || bits == 24 || bits == 32
}

} // verus!
