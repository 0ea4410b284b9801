use vstd::prelude::*;

verus! {

/// The bit that holds the sign of an IEEE 754 binary32 number.
pub const SIGN_BIT: u32 = 0x8000_0000;

/// The bit pattern of positive infinity.
pub const INFINITY_BITS: u32 = 0x7f80_0000;

/// The bits of `bits` without the sign.
pub open spec fn magnitude(bits: u32) -> int {
    if bits >= SIGN_BIT {
        bits - SIGN_BIT
    } else {
        bits as int
    }
}

/// Whether `bits` is the pattern of a NaN.
pub open spec fn is_nan(bits: u32) -> bool {
    magnitude(bits) > INFINITY_BITS
}

/// The place of a binary32 number among all of them, from its bit pattern:
/// the magnitude for a pattern without the sign, its negative for one with
/// it. Numbers that are no NaN come in the order of their places, and the
/// two zeros share one place. The patterns of NaN rank beyond the
/// infinity of their sign.
pub open spec fn rank(bits: u32) -> int {
    if bits >= SIGN_BIT {
        -magnitude(bits)
    } else {
        magnitude(bits)
    }
}

/// An unsigned key that orders bit patterns as their ranks do.
pub fn order_key(bits: u32) -> (key: u32)
    ensures
        key == rank(bits) + SIGN_BIT,
{
    if bits >= SIGN_BIT {
        SIGN_BIT - (bits - SIGN_BIT)
    } else {
        bits + SIGN_BIT
    }
}

/// Keys compare as ranks do, and no pattern ranks beyond the NaNs.
pub proof fn lemma_rank_order(a: u32, b: u32)
    ensures
        rank(a) < rank(b) <==> rank(a) + SIGN_BIT < rank(b) + SIGN_BIT,
        rank(a) == rank(b) <==> a == b || (magnitude(a) == 0 && magnitude(b) == 0),
        -(SIGN_BIT - 1) <= rank(a) <= SIGN_BIT - 1,
        !is_nan(a) ==> -INFINITY_BITS <= rank(a) <= INFINITY_BITS,
{
}

} // verus!
