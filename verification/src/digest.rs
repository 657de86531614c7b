//! The cryptographic digest behind snapshot roots, and the capture
//! time. Both come from outside the verified code: the digest through
//! a named, uninterpreted result, the time with no promise at all.

use vstd::prelude::*;

use crate::codec::entries_bytes;
use crate::codec::hex_chars;
use crate::types::LabelKey;

verus! {

/// The digest of a byte sequence: a function of the bytes alone,
/// otherwise uninterpreted.
pub uninterp spec fn digest_of(bytes: Seq<u8>) -> Seq<u8>;

/// The root recorded by a fold of the given entries: the hex encoding
/// of the digest of their canonical serialization.
pub open spec fn spec_root(s: Seq<(LabelKey, u128)>) -> Seq<char> {
    hex_chars(digest_of(entries_bytes(s)))
}

/// Relies on sha2::Sha256: the 32-byte digest depends on the input
/// bytes alone.
#[verifier::external_body]
pub(crate) fn sha256_digest(bytes: &Vec<u8>) -> (r: Vec<u8>)
    ensures
        r@ == digest_of(bytes@),
        r@.len() == 32,
{
    let digest = <sha2::Sha256 as sha2::Digest>::digest(bytes.as_slice());
    digest.to_vec()
}

/// Relies on std::time::SystemTime::now for the capture time, as
/// milliseconds since the Unix epoch; nothing is promised of the value.
#[verifier::external_body]
pub(crate) fn current_timestamp_ms() -> i64 {
    let now = std::time::SystemTime::now()
        .duration_since(std::time::UNIX_EPOCH)
        .unwrap_or_default();
    now.as_millis() as i64
}

} // verus!
