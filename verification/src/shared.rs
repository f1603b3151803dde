//! The ratios that the parts of the device share.

use vstd::prelude::*;

use crate::ratio::{Ratio, ONE_BITS};

verus! {

/// The shared ratios. One that is absent cannot be reached, as behind a
/// poisoned lock: it reads as full, and what is stored there is lost.
#[derive(Clone, Copy, Debug)]
pub struct SharedRatios {
    /// The ratio of the ambient light.
    pub ambient: Option<Ratio>,
    /// The ratio that the light was last set to.
    pub matter: Option<Ratio>,
    /// The ratio that the light had when it was last switched off.
    pub previous: Option<Ratio>,
}

/// The pattern that a shared ratio is read as.
pub open spec fn read_as(shared: Option<Ratio>) -> u32 {
    match shared {
        Some(ratio) => ratio@,
        None => ONE_BITS,
    }
}

/// Whether a shared ratio is `after` once the pattern `bits` was stored where
/// it was `before`.
pub open spec fn stored(before: Option<Ratio>, after: Option<Ratio>, bits: u32) -> bool {
    &&& before is Some <==> after is Some
    &&& after matches Some(ratio) ==> ratio@ == bits
}

/// Reads a shared ratio.
pub fn read_ratio(shared: Option<Ratio>) -> (r: Ratio)
    ensures
        r@ == read_as(shared),
{
    match shared {
        Some(ratio) => ratio,
        None => Ratio::full(),
    }
}

/// Stores a shared ratio.
pub fn store_ratio(shared: Option<Ratio>, ratio: Ratio) -> (r: Option<Ratio>)
    ensures
        stored(shared, r, ratio@),
{
    match shared {
        Some(_) => Some(ratio),
        None => None,
    }
}

impl SharedRatios {
    /// The ratios at the start of the program: all full.
    pub fn new() -> (r: SharedRatios)
        ensures
            r.ambient matches Some(ratio) && ratio@ == ONE_BITS,
            r.matter matches Some(ratio) && ratio@ == ONE_BITS,
            r.previous matches Some(ratio) && ratio@ == ONE_BITS,
    {
        SharedRatios {
            ambient: Some(Ratio::full()),
            matter: Some(Ratio::full()),
            previous: Some(Ratio::full()),
        }
    }

    /// The ratios behind a poisoned lock: none can be reached.
    pub fn poisoned() -> (r: SharedRatios)
        ensures
            r == (SharedRatios { ambient: None, matter: None, previous: None }),
    {
        SharedRatios { ambient: None, matter: None, previous: None }
    }
}

/// A ratio that was stored is read back, and one that cannot be reached reads
/// as one, before and after.
pub proof fn law_stored_ratio_is_read(before: Option<Ratio>, after: Option<Ratio>, bits: u32)
    ensures
        before is Some && stored(before, after, bits) ==> read_as(after) == bits,
        before is None && stored(before, after, bits) ==> after is None && read_as(after)
            == 0x3f80_0000,
        before is None && after is None ==> stored(before, after, bits),
        before is Some && (after matches Some(ratio) && ratio@ == bits) ==> stored(
            before,
            after,
            bits,
        ),
        before matches Some(ratio) ==> read_as(before) == ratio@,
        before is None ==> read_as(before) == 0x3f80_0000,
{
}

}
