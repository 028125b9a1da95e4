use vstd::prelude::*;

verus! {

/// Half of the range of a `u32`: the sign bit of an IEEE-754 single.
pub const SIGN_BIT: u32 = 0x8000_0000;

/// Bit pattern of positive infinity with the sign bit cleared.
pub const INFINITY_BITS: u32 = 0x7f80_0000;

/// The bits of a single-precision score other than the sign bit.
pub open spec fn magnitude(bits: u32) -> int {
    bits as int % 0x8000_0000
}

/// Whether the bit pattern encodes a NaN: all exponent bits set and a
/// non-zero mantissa.
pub open spec fn is_nan(bits: u32) -> bool {
    magnitude(bits) > INFINITY_BITS as int
}

/// Whether the sign bit is set.
pub open spec fn is_negative(bits: u32) -> bool {
    bits >= SIGN_BIT
}

/// The position of a non-NaN score on the real line. IEEE-754 encodes the
/// magnitude monotonically, so the sign applied to the magnitude orders scores
/// as the numbers they stand for; both zeros sit at 0.
pub open spec fn ordinal(bits: u32) -> int {
    if is_negative(bits) {
        -magnitude(bits)
    } else {
        magnitude(bits)
    }
}

/// The ranking key of a score: NaN is the lowest key of all, and every other
/// score is its ordinal shifted above it.
pub open spec fn key_of(bits: u32) -> int {
    if is_nan(bits) {
        0
    } else {
        ordinal(bits) + 0x8000_0000
    }
}

/// Maps the bit pattern of a single-precision score to a key whose integer
/// order is the numeric order of scores, with every NaN below every number and
/// the two zeros equal.
pub fn score_key(bits: u32) -> (r: u32)
    ensures
        r as int == key_of(bits),
{
    let mag: u32 = bits % SIGN_BIT;
    if mag > INFINITY_BITS {
        0
    } else if bits >= SIGN_BIT {
        SIGN_BIT - mag
    } else {
        SIGN_BIT + mag
    }
}

/// Keys order numbers as their ordinals do, and every NaN is below every
/// number.
pub proof fn lemma_key_order(a: u32, b: u32)
    ensures
        !is_nan(a) && !is_nan(b) ==> (key_of(a) < key_of(b) <==> ordinal(a) < ordinal(b)),
        !is_nan(a) && !is_nan(b) ==> (key_of(a) == key_of(b) <==> ordinal(a) == ordinal(b)),
        is_nan(a) && !is_nan(b) ==> key_of(a) < key_of(b),
        is_nan(a) && is_nan(b) ==> key_of(a) == key_of(b),
{
}

} // verus!
