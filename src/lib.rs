//! A disk-resident, hash-ordered key/value index.
//!
//! Recent writes collect in a bounded in-memory buffer ordered by the digest of their
//! key. When the buffer outgrows its capacity it is merged into a sorted index of
//! text records (`key SEP offset SEP count`), whose values live in a companion data
//! file addressed by byte offset. Finalizing compacts both files and pads every index
//! record to one width, so that a lookup is a binary search over byte offsets.
//!
//! The library works on the contents of the two files; reading and writing them is
//! left to the caller.
use vstd::prelude::*;

pub mod text;
pub mod record;
pub mod memtable;
pub mod flush;
pub mod compact;
pub mod lookup;
pub mod hash_file;
pub mod contents;
pub mod laws;

pub use hash_file::HashFile;
pub use text::SEP;

verus! {

/// Why an operation of the store failed.
#[derive(Debug, Clone, Copy, PartialEq, Eq, Structural)]
pub enum Error {
    /// The key holds a separator or a line terminator, which a record cannot carry.
    KeyNotStorable,
    /// The value holds a line terminator, which a data-file line cannot carry.
    ValueNotStorable,
    /// A lookup came while writes were pending; finalize first.
    NotFinalized,
    /// A lookup met an index line that holds no record.
    CorruptRecord,
    /// The records of an index to open are not in ascending order of digest.
    IndexOutOfOrder,
    /// A record of an index to open points past the values of the data file.
    DanglingOffset,
}

/// The digest of a byte string under SipHash-2-4 with both keys zero.
pub uninterp spec fn sip_digest(bytes: Seq<u8>) -> u64;

/// Relies on `siphasher::sip::SipHasher::new` (keys zero) and `SipHasher::hash`, a
/// pure function of the bytes hashed.
#[verifier::external_body]
fn sip_hash(bytes: &[u8]) -> (r: u64)
    ensures
        r == sip_digest(bytes@),
{
    siphasher::sip::SipHasher::new().hash(bytes)
}

/// The digest of a key: the order of the index, and the identity of a key within it.
pub fn hash(key: &[u8]) -> (r: u64)
    ensures
        r == sip_digest(key@),
{
    sip_hash(key)
}

} // verus!
