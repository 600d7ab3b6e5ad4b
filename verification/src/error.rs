//! The error taxonomy shared by the crypto primitives, the servers, and the
//! client.

use vstd::prelude::*;

verus! {

/// Every failure the protocol core can report.
///
/// Cryptographic failures are fatal except for decryption failure, which is
/// the normal "this block is not mine" branch of a read walk.  Protocol
/// failures abort the epoch; `NoMessageFound` is a normal read outcome.
#[derive(Clone, Copy, Debug, PartialEq, Eq, Structural)]
pub enum MycoError {
    /// HKDF expansion failed.
    HkdfExpansionFailed,
    /// HKDF fill failed.
    HkdfFillFailed,
    /// Encryption failed (wrong key length).
    EncryptionFailed,
    /// Decryption failed.
    DecryptionFailed,
    /// No message was found on any queried path.
    NoMessageFound,
    /// A bucket was missing where one was expected.
    BucketNotFound,
    /// A metadata bucket was missing where one was expected.
    MetadataBucketNotFound,
    /// A bucket had no block at the given index.
    BucketIndexError(usize),
    /// A metadata bucket had no entry at the given index.
    MetadataIndexError(usize),
    /// A path had no ancestor in the current path-set.
    LcaNotFound,
    /// Serialization failed.
    SerializationFailed,
    /// Deserialization failed.
    DeserializationError,
    /// A read batch did not match the announced batch size.
    InvalidBatchSize,
    /// The client was asked to use a key it was never set up with.
    KeyNotFound,
    /// More messages were queued for one bucket than its capacity `Z`.
    BucketOverflow,
}

} // verus!
