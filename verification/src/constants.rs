//! Protocol parameters, fixed per deployment.

use vstd::prelude::*;

verus! {

/// Number of epochs a message persists before expiring.
pub const DELTA: usize = 1000;

/// Depth of the binary tree used to store messages.
pub const D: usize = 18;

/// Security parameter in bits.
pub const LAMBDA: usize = 128;

/// Paths sampled per client write.
pub const NU: usize = 1;

/// Capacity of each bucket in the binary tree.
pub const Z: usize = 50;

/// Total size of the message database: `2^D`.
pub const DB_SIZE: usize = 262144;

/// Number of active clients, as database size / message lifetime.
pub const NUM_CLIENTS: usize = DB_SIZE / DELTA;

/// Messages processed together in a read batch.
pub const BATCH_SIZE: usize = 1;

/// Size of the nonce used by the authenticated cipher.
pub const NONCE_SIZE: usize = 12;

/// Size of the authentication tag.
pub const TAG_SIZE: usize = 16;

/// Plaintext message payload size in bytes.
pub const MESSAGE_SIZE: usize = 228;

/// Size of the inner encrypted block: padded message plus nonce and tag.
pub const INNER_BLOCK_SIZE: usize = MESSAGE_SIZE + NONCE_SIZE + TAG_SIZE;

/// Total block size: inner block plus the outer nonce and tag.
pub const BLOCK_SIZE: usize = INNER_BLOCK_SIZE + NONCE_SIZE + TAG_SIZE;

/// Size of each bucket in bytes.
pub const BUCKET_SIZE_BYTES: usize = Z * BLOCK_SIZE;

/// Soft cap on request size when reading paths, in bytes.
pub const MAX_REQUEST_SIZE_READ_PATHS: usize = 10 * 1024 * 1024;

/// Soft cap on request size when writing batches, in bytes.
pub const MAX_REQUEST_SIZE_BATCH_WRITE: usize = 10 * 1024 * 1024;

/// Buckets per chunk of a batch write.
pub const NUM_BUCKETS_PER_BATCH_WRITE_CHUNK: usize = MAX_REQUEST_SIZE_BATCH_WRITE
    / BUCKET_SIZE_BYTES;

/// Buckets per chunk of a path read.
pub const NUM_BUCKETS_PER_READ_PATHS_CHUNK: usize = MAX_REQUEST_SIZE_READ_PATHS
    / BUCKET_SIZE_BYTES;

/// Number of slots in the one-indexed array backing a tree of depth `D`
/// (slot 0 is unused): `2^(D + 1)`.
pub const TREE_SLOTS: usize = 524288;

/// Machine cap on the size of any single block (`2^28` bytes, far above
/// `BLOCK_SIZE`); keeps every ciphertext length within the cipher's
/// limits.
pub const MAX_BLOCK_BYTES: usize = 268435456;

} // verus!
