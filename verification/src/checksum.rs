//! The CRC-32 checksum of the pixel buffer, computed by `crc32fast`.

use vstd::prelude::*;

verus! {

/// The CRC-32 (IEEE) checksum that `crc32fast` computes for a byte sequence.
pub uninterp spec fn crc32(bytes: Seq<u8>) -> u32;

/// The bytes that a hasher has processed so far, in order.
pub uninterp spec fn fed(hasher: crc32fast::Hasher) -> Seq<u8>;

/// `crc32fast::Hasher`, a checksum in progress. Nothing of its state is
/// visible here but through `fed`.
#[verifier::external_type_specification]
#[verifier::external_body]
pub struct ExHasher(crc32fast::Hasher);

/// `crc32fast::Hasher::new`: a hasher that has processed no byte yet.
pub assume_specification[ crc32fast::Hasher::new ]() -> (hasher: crc32fast::Hasher)
    ensures
        fed(hasher) == Seq::<u8>::empty(),
;

/// `crc32fast::Hasher::update`: the hasher has processed `buf` after what it
/// had processed before. The crate counts the bytes in a `u64`, so the total
/// has to fit one.
pub assume_specification[ crc32fast::Hasher::update ](hasher: &mut crc32fast::Hasher, buf: &[u8])
    requires
        fed(*old(hasher)).len() + buf@.len() <= u64::MAX,
    ensures
        fed(*final(hasher)) == fed(*old(hasher)) + buf@,
;

/// `crc32fast::Hasher::finalize`: the checksum of all the bytes processed.
pub assume_specification[ crc32fast::Hasher::finalize ](hasher: crc32fast::Hasher) -> (sum: u32)
    ensures
        sum == crc32(fed(hasher)),
;

} // verus!
