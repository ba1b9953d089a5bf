//! A minimal time-series storage engine.
//!
//! Callers append opaque payload records tagged with a logical table name;
//! the engine places each record into a shard file determined by the table
//! and the wall-clock hour of the write, and later retrieves all records for
//! a table whose identifier falls within a requested time window.
//!
//! The engine has four parts:
//! - [`shard`]: the pure rule mapping a table name and a UTC timestamp to a
//!   shard file path, at day and hour granularity;
//! - [`codec`]: the self-delimiting on-disk record framing with a CRC-32-IEEE
//!   integrity checksum, and the stream decoder that detects corruption and
//!   truncation;
//! - [`writer`]: the planner for an append of one encoded frame to exactly
//!   one shard file;
//! - [`scanner`]: the time-range scan, a step-by-step state machine that a
//!   caller drives against the real file system.
//!
//! All file I/O is performed by the caller; the engine only computes paths,
//! bytes and decisions, so that every rule it applies is verified.

pub mod codec;
pub mod scanner;
pub mod shard;
pub mod writer;
