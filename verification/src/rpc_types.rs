//! The request and response payloads of the two servers' endpoints.
//!
//! These are the plain data shapes; the transport encodes them outside
//! this crate.

use vstd::prelude::*;

use crate::dtypes::{Bucket, Key};

verus! {

/// Request to queue one write at the coordinator.
pub struct QueueWriteRequest {
    /// The encrypted message.
    pub ct: Vec<u8>,
    /// The writer's PRF tag for this epoch.
    pub f: Vec<u8>,
    /// The per-epoch oblivious key.
    pub k_oblv_t: Key,
    /// The writer's client suffix.
    pub cs: Vec<u8>,
}

/// Whether a queued write was accepted.
pub struct QueueWriteResponse {
    /// True when the write was queued.
    pub success: bool,
}

/// Request for the buckets at a path-set, storing the set.
pub struct ReadPathsRequest {
    /// The dense indices to read.
    pub indices: Vec<u64>,
}

/// Request for the buckets at a path-set, without storing the set.
pub struct ReadPathsClientRequest {
    /// The dense indices to read.
    pub indices: Vec<u64>,
}

/// The buckets a path-set read returned.
pub struct ReadPathsResponse {
    /// The buckets, in the order of the request's indices.
    pub buckets: Vec<Bucket>,
}

/// Request for the buckets along one path.
pub struct ReadRequest {
    /// The bit-packed path.
    pub path: Vec<u8>,
}

/// The buckets along one path.
pub struct ReadResponse {
    /// The buckets, root to leaf.
    pub buckets: Vec<Bucket>,
}

/// Request to record a path-set for later chunked reads and writes.
pub struct StorePathIndicesRequest {
    /// The dense indices of the path-set.
    pub pathset: Vec<u64>,
}

/// Whether a path-set was stored.
pub struct StorePathIndicesResponse {
    /// True when the path-set was recorded.
    pub success: bool,
}

/// Request for one chunk of the stored path-set's buckets.
pub struct ChunkReadPathsRequest {
    /// The zero-based chunk number.
    pub chunk_idx: u64,
}

/// One chunk of the stored path-set's buckets.
pub struct ChunkReadPathsResponse {
    /// The chunk's buckets.
    pub buckets: Vec<Bucket>,
}

/// Request for one chunk of the buckets at the given indices.
pub struct ChunkReadPathsClientRequest {
    /// The dense indices to read.
    pub indices: Vec<u64>,
    /// The zero-based chunk number.
    pub chunk_idx: u64,
}

/// One chunk of a client path read.
pub struct ChunkReadPathsClientResponse {
    /// The chunk's buckets.
    pub buckets: Vec<Bucket>,
}

/// Request to close an epoch after chunked writes.
pub struct FinalizeEpochRequest {
    /// The epoch key to publish.
    pub prf_key: Key,
}

/// Whether an epoch was finalized.
pub struct FinalizeEpochResponse {
    /// True when the epoch advanced.
    pub success: bool,
}

/// Request to overwrite one chunk of the stored path-set.
pub struct ChunkWriteRequest {
    /// The chunk's buckets.
    pub buckets: Vec<Bucket>,
    /// The zero-based chunk number.
    pub chunk_idx: u64,
    /// The epoch key, carried for the finalizing call.
    pub prf_key: Key,
}

/// Whether a chunk write was applied.
pub struct ChunkWriteResponse {
    /// True when the chunk was written.
    pub success: bool,
}

/// Request to overwrite the whole stored path-set and publish the epoch
/// key.
pub struct WriteRequest {
    /// The buckets, in path-set order.
    pub buckets: Vec<Bucket>,
    /// The epoch key to publish.
    pub prf_key: Key,
}

/// Whether a batch write was applied.
pub struct WriteResponse {
    /// True when the write was applied.
    pub success: bool,
}

/// The storage server's current key ring.
pub struct GetPrfKeysResponse {
    /// The PRF keys, oldest first.
    pub keys: Vec<Key>,
}

/// Request to initialise an epoch for a number of writers.
pub struct BatchInitRequest {
    /// How many writes the epoch expects.
    pub num_writes: u64,
}

/// Whether an epoch was initialised.
pub struct BatchInitResponse {
    /// True when the batch was initialised.
    pub success: bool,
}

/// Whether a batch write completed.
pub struct BatchWriteResponse {
    /// True when the batch write completed.
    pub success: bool,
}

/// A server's current epoch number.
pub struct EpochNumberResponse {
    /// The epoch counter.
    pub epoch: u64,
}

} // verus!
