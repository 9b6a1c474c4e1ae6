//! An embedded key-value store: an append-only value log addressed by byte
//! offsets, together with an in-memory index from key to `(offset, length)`
//! that is mirrored to disk as a full snapshot.
//!
//! This crate holds the verified engine: the store state, the index, and the
//! snapshot codec. File handling, locking, and value serialization live with
//! the caller, which hands the engine plain bytes and writes out what the
//! engine returns.

mod errors;
pub mod codec;
pub mod index;
pub mod laws;
pub mod store;

pub use errors::StoreError;
pub use store::KeyValueStore;
