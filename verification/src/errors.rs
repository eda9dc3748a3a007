//! Error values returned by the cache store and its serializers.
//!
//! Every failure of the library is reported through one of these enums;
//! no operation panics or aborts the process.

use vstd::prelude::*;

verus! {

/// Failures of the store's own operations.
#[derive(Debug, Clone, Copy, PartialEq, Eq, Structural)]
pub enum CacheSystemError {
    /// An insertion was attempted against a store already at capacity.
    CacheFull,
    /// An eviction was attempted before the store reached capacity.
    CacheNotFull,
    /// A clear was attempted on a store that holds no entries.
    CacheAlreadyEmpty,
    /// A lookup named a key the store does not hold.
    KeyNotFound,
    /// An ordering structure disagreed with the entry mapping during eviction.
    InvalidKey,
    /// A first-in-first-out eviction could not be carried out.
    FIFOError,
    /// A least-recently-used eviction could not be carried out.
    LRUError,
    /// A serializer reported a failure while the store was being encoded.
    SerializationError,
    /// An entry could not be stored.
    FailedToInsertData,
}

/// Failures concerning the data handed to the store.
#[derive(Debug, Clone, Copy, PartialEq, Eq, Structural)]
pub enum CacheDataError {
    /// The data handed to the store was not acceptable.
    InvalidData,
}

/// Failures of encoding or decoding the store's contents.
#[derive(Debug, Clone, Copy, PartialEq, Eq, Structural)]
pub enum SerializeError {
    /// The textual encoding could not be produced.
    JsonError,
    /// The binary encoding could not be produced.
    BinaryError,
    /// The input could not be decoded into a store.
    DeserializeError,
    /// The input was decodable but is not a canonical encoding of a store.
    InvalidFormat,
}

} // verus!
