//! An embedded, single-file vector database: the on-disk page format, the
//! write-ahead log, the page cache, and the index and metadata structures
//! that sit on top of them.

pub mod bytes;
pub mod encoding;
pub mod crc;
pub mod format;
pub mod error;
pub mod wal;
pub mod page_cache;
pub mod config;
pub mod cells;
pub mod hnsw;
pub mod hnsw_search;
pub mod ranking;
pub mod flat;
pub mod doc_ids;
pub mod filter;
pub mod text;
pub mod embed;
