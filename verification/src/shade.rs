//! The grey level of a pixel, from the escape result of its point.

use vstd::prelude::*;

verus! {

/// The grey level that stands for an escape result. A point that did not
/// escape is black. A point that escaped at iteration `i` gets `255 - i`, so
/// the sooner it escaped the lighter it is; iteration counts beyond a byte
/// are taken modulo 256.
pub open spec fn intensity(escape: Option<u64>) -> u8 {
    match escape {
        None => 0u8,
        Some(i) => (255 - i % 256) as u8,
    }
}

/// Computes the grey level of an escape result.
pub fn shade(escape: Option<u64>) -> (level: u8)
    ensures
        level == intensity(escape),
{
    match escape {
        None => 0,
        Some(i) => {
            let low: u8 = (i % 256) as u8;
            255 - low
        },
    }
}

/// Below the customary iteration limit of 255 the grey level tells the
/// escape result: no two results share a level.
pub proof fn lemma_intensity_tells_escape(a: Option<u64>, b: Option<u64>)
    requires
        a matches Some(i) ==> i < 255,
        b matches Some(i) ==> i < 255,
        intensity(a) == intensity(b),
    ensures
        a == b,
{
}

} // verus!
