//! Integer helpers of the bicubic upscale.

use vstd::prelude::*;

verus! {

/// `v` clamped to `lo..=hi`.
pub open spec fn clamp_spec(v: int, lo: int, hi: int) -> int {
    if v < lo {
        lo
    } else if v > hi {
        hi
    } else {
        v
    }
}

/// Clamps `v` to `lo..=hi`, as `v.max(lo).min(hi)` does (so `hi` wins when
/// `lo > hi`).
pub fn clampi(v: isize, lo: isize, hi: isize) -> (r: isize)
    ensures
        r == if v < lo {
            if lo > hi {
                hi as int
            } else {
                lo as int
            }
        } else if v > hi {
            hi as int
        } else {
            v as int
        },
        lo <= hi ==> r == clamp_spec(v as int, lo as int, hi as int),
{
    let m = if v > lo {
        v
    } else {
        lo
    };
    if m < hi {
        m
    } else {
        hi
    }
}

} // verus!
