//! The fingerprint of a field collection's folded bytes.

use vstd::prelude::*;
use dispnet_hash::{DispnetHash, HashType};

verus! {

/// The CRC digest of `data`, as text bytes.
pub uninterp spec fn crc_digest(data: Seq<u8>) -> Seq<u8>;

/// Relies on `dispnet_hash::DispnetHash::create` with `HashType::CRC`: its
/// `digest_value` is the decimal text of the CRC-32 (iSCSI) checksum of
/// `data`, so it depends on `data` alone and is one to ten digits long.
#[verifier::external_body]
pub(crate) fn crc_of(data: &[u8]) -> (r: Vec<u8>)
    ensures
        r@ == crc_digest(data@),
        1 <= r@.len() <= 10,
{
    DispnetHash::create(HashType::CRC, data, None).digest_value
}

} // verus!
