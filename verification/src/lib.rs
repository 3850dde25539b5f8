//! A self-encrypting storage codec: it cuts a byte stream into
//! content-addressed chunks whose encryption keys are derived from the
//! stream's own content hashes, and rebuilds the stream from a data map and
//! a chunk store. Identical input yields identical chunks and addresses, so
//! a network can deduplicate freely, while the data map stays necessary for
//! reconstruction. An oversized data map is itself self-encrypted, level by
//! level, until a chunk-sized root map remains.
pub mod chunker;
pub mod cipher;
pub mod datamap;
pub mod decrypt;
pub mod encrypt;
pub mod serial;
pub mod stream;
pub mod hashing;
pub mod laws;

pub use datamap::{ChunkInfo, DataMap, Error};
pub use decrypt::{decrypt, ChunkStore};
pub use encrypt::{encrypt, EncryptedChunk};
pub use stream::StreamingDecrypt;

use vstd::prelude::*;

verus! {

/// Smallest chunk the chunker will ever produce, in bytes.
pub const MIN_CHUNK_SIZE: usize = 1;

/// Inputs shorter than this cannot be encrypted: three chunks are the
/// least the neighbourhood key schedule can work with.
pub const MIN_ENCRYPTABLE_BYTES: usize = 3;

/// Largest chunk the chunker will ever produce, in bytes (1 MiB).
pub const MAX_CHUNK_SIZE: usize = 1048576;

} // verus!
