//! A mutable table storage engine. Rows are appended to an in-memory buffer
//! and logged; a commit makes what was appended eligible for flushing; a flush
//! turns the committed batches into immutable data files; rows of data files
//! are removed by deletion vectors, never by rewriting a file; and a snapshot
//! shows the data files and the deletions as they stand at one LSN.
//!
//! The modules, from the leaves up:
//!
//! - [`text`], [`checksum`]: decimal text and Adler-32.
//! - [`row`], [`position`]: rows and schemas; position deletes and the
//!   references to persisted deletion vectors.
//! - [`deletion_vector`], [`puffin`]: the deleted offsets of one data file
//!   and their blob; containers of blobs.
//! - [`codec`], [`wal`]: the bytes of log records; the write-ahead log.
//! - [`buffer`], [`recovery`]: the buffer and its data files; why a replay of
//!   the log rebuilds the buffer.
//! - [`cache`]: the cache that pins the containers a snapshot refers to.
//! - [`config`], [`table`], [`sync`], [`snapshot`]: the table that binds all
//!   of these, the persisting of its deletion vectors, and its snapshots.
//! - [`readback`], [`columns`], [`fixtures`]: reading a snapshot back and
//!   comparing it with what is expected; sample tables and whole runs.
//!
//! Everything here works on values in memory. Writing the durable image of
//! the log, the data files and the containers to disk is left to the caller.

pub mod buffer;
pub mod cache;
pub mod checksum;
pub mod codec;
pub mod columns;
pub mod config;
pub mod deletion_vector;
pub mod fixtures;
pub mod position;
pub mod puffin;
pub mod readback;
pub mod recovery;
pub mod row;
pub mod snapshot;
pub mod sync;
pub mod table;
pub mod text;
pub mod wal;
