//! Error types of the storage engine, the vector index, the metadata store
//! and the database as a whole.

use vstd::prelude::*;

verus! {

/// Errors of storage operations.
#[derive(Debug, Clone, PartialEq, Eq)]
pub enum StorageError {
    /// An I/O error, with its description.
    Io(String),
    /// The file is not a valid database file.
    InvalidFile(String),
    /// The page does not exist.
    PageNotFound(u64),
    /// The write-ahead log is corrupted.
    WalCorrupted(String),
    /// A page failed its CRC check.
    CrcMismatch(u64),
    /// The database is read-only.
    ReadOnly,
    /// Another writer is active.
    WriteConflict,
    /// The page has no room for the cell.
    PageFull { page_id: u64, needed: u16, available: u16 },
    /// A value could not be serialized.
    Serialization(String),
    /// The file uses a format version this code does not read.
    UnsupportedVersion(u32),
    /// Any other storage error.
    Other(String),
}

/// Errors of vector index operations.
#[derive(Debug, Clone, PartialEq, Eq)]
pub enum IndexError {
    /// A vector has the wrong number of elements.
    DimensionMismatch { expected: usize, actual: usize },
    /// No vector has this ID.
    VectorNotFound(u64),
    /// The index is empty.
    EmptyIndex,
    /// A parameter is out of range.
    InvalidParameter(String),
    /// The index could not be stored or loaded.
    Storage(String),
}

/// Errors of metadata operations.
#[derive(Debug, Clone, PartialEq, Eq)]
pub enum MetadataError {
    /// No collection has this name.
    CollectionNotFound(String),
    /// No document has this ID.
    DocumentNotFound(String),
    /// The filter expression does not parse.
    InvalidFilter(String),
    /// The metadata could not be stored or loaded.
    Storage(String),
    /// The metadata could not be serialized.
    Serialization(String),
}

/// Errors of database operations.
#[derive(Debug, Clone, PartialEq, Eq)]
pub enum Error {
    /// A storage error.
    Storage(StorageError),
    /// A vector index error.
    Index(IndexError),
    /// A metadata error.
    Metadata(MetadataError),
    /// No collection has this name.
    CollectionNotFound(String),
    /// A collection with this name exists already.
    CollectionAlreadyExists(String),
    /// The configuration is invalid.
    InvalidConfig(String),
    /// A vector has the wrong number of elements.
    DimensionMismatch { expected: usize, actual: usize },
    /// The database is closed.
    DatabaseClosed,
    /// Any other error.
    Other(String),
}

} // verus!
