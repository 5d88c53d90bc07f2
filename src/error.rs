//! Errors reported by the engine.

use vstd::prelude::*;

verus! {

/// What went wrong in a call of the engine.
#[derive(Debug)]
pub enum SDDEError {
    /// The receiver's state is not the one the patch was computed against.
    CRC(String),
    /// The patch bytes are truncated or inconsistent.
    DifferenceInvalid(String),
}

pub(crate) fn crc_mismatch() -> (r: SDDEError)
    ensures
        r is CRC,
{
    SDDEError::CRC("CRC value does not match".to_owned())
}

pub(crate) fn invalid_difference() -> (r: SDDEError)
    ensures
        r is DifferenceInvalid,
{
    SDDEError::DifferenceInvalid("difference bytes are malformed".to_owned())
}

} // verus!
