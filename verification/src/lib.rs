//! Myco: a two-server metadata-hiding messaging library.
//!
//! Senders hand encrypted messages to a write coordinator (`Server1`) that
//! shuffles and re-encrypts them into an ORAM-style tree held by a storage
//! server (`Server2`); receivers later fetch tree paths and decrypt without
//! either server learning who talks to whom.

pub mod client;
pub mod codec;
pub mod constants;
pub mod crypto;
pub mod dtypes;
pub mod error;
pub mod network;
pub mod rpc_types;
pub mod server1;
pub mod server2;
pub mod tree;
pub mod utils;

pub use crypto::{decrypt, encrypt, kdf, prf, EncryptionType};
pub use utils::{get_path_indices, pad_message, trim_zeros};
