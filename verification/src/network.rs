//! The command shapes exchanged with the servers.  The transport that
//! carries them lives outside this crate.

use vstd::prelude::*;

use crate::dtypes::{Bucket, Key, Path};

verus! {

/// A command addressed to one of the servers.
pub enum Command {
    /// Queue a write at the coordinator: ciphertext, PRF tag, per-epoch
    /// oblivious key, and client suffix.
    Server1Write(Vec<u8>, Vec<u8>, Key, Vec<u8>),
    /// A write command for the storage server.
    Server2Write(WriteType),
    /// A read command for the storage server.
    Server2Read(ReadType),
    /// Acknowledgement.
    Success,
}

/// The write commands the storage server accepts.
pub enum WriteType {
    /// Overwrite the stored path-set with these buckets and publish the
    /// epoch key.
    Write(Vec<Bucket>, Key),
}

/// The read commands the storage server accepts.
pub enum ReadType {
    /// Read the buckets along one path.
    Read(Path),
    /// Read the buckets at a path-set.
    ReadPaths(Vec<usize>),
    /// Fetch the PRF key ring.
    GetPrfKeys,
}

} // verus!
