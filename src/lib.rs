//! Chunk storage and the preserved catalog of a columnar time-series store.
//!
//! Chunks are immutable parquet files in an object store whose footers carry
//! the revision and id of the transaction that added them. The preserved
//! catalog is a gap-free, revision-numbered log of transactions in the same
//! store; where the log is lost it is rebuilt from the chunk files.
pub mod catalog;
pub mod cli;
pub mod columnar;
pub mod hex;
pub mod laws;
pub mod metadata;
pub mod path;
pub mod rebuild;
pub mod record;
pub mod storage;
pub mod store;
pub mod test_db;
pub mod text;
