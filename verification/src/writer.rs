//! Append planning.
//!
//! An insert appends exactly one encoded frame to exactly one shard file and
//! never touches bytes already present. The engine computes the whole plan —
//! the day directory to ensure, the shard file to append to, and the frame
//! bytes — and the caller carries the plan out with ordinary file I/O:
//! create the directory hierarchy (idempotently), create the file if it is
//! missing, open it in append-only mode and write exactly the frame bytes.
//! Any filesystem failure is the caller's I/O error and propagates to
//! whoever asked for the insert; nothing is retried here.
//!
//! Record ids are caller-supplied: the engine does not allocate sequence
//! numbers, and scans compare record ids against the timestamp window, so
//! callers should supply the write timestamp (or another monotonically
//! meaningful value) as the id.
//!
//! Concurrent writers to the same shard file are not coordinated: there is
//! no file locking, and appends from two processes may interleave their
//! frames. This is an accepted limitation for a single-producer deployment
//! model, documented here rather than silently fixed; the codec's checksum
//! turns a frame observed partially written into a detected decode error
//! rather than silent corruption.

use crate::codec::{crc32_of, encode, frame_bytes};
use crate::shard::{day_dir, day_dir_of, path_of, resolve};
use vstd::prelude::*;

verus! {

/// The input to one write: a table name and the opaque payload bytes. Owned
/// by the caller until handed to an insert.
#[derive(Debug)]
pub struct Entry {
    pub table: String,
    pub payload: Vec<u8>,
}

/// An invalid configuration, rejected at construction before any operation
/// is attempted.
#[derive(Debug, Clone, Copy, PartialEq, Eq, Structural)]
pub enum ConfigurationError {
    /// The root path is the empty string.
    EmptyRoot,
}

/// Everything one insert does to the file system, computed up front: ensure
/// `dir` exists, ensure `file` exists, then append exactly `frame` to
/// `file`.
#[derive(Debug)]
pub struct InsertPlan {
    /// The day directory `root/table/YYYYMMDD` to create if missing.
    pub dir: String,
    /// The shard file `root/table/YYYYMMDD/HH` to append to.
    pub file: String,
    /// The encoded frame to append.
    pub frame: Vec<u8>,
}

/// Plans appends of encoded frames under a fixed root directory, with the
/// shard chosen by the UTC calendar hour of each write.
#[derive(Debug)]
pub struct AppendWriter {
    /// The root directory every table lives under.
    pub root: String,
}

impl AppendWriter {
    /// Accepts any nonempty root directory; an empty root is an invalid
    /// configuration and is rejected, and nothing else is.
    pub fn new(root: String) -> (r: Result<AppendWriter, ConfigurationError>)
        ensures
            root@.len() > 0 ==> (r matches Ok(w) && w.root@ == root@),
            root@.len() == 0 ==> (r matches Err(e) && e == ConfigurationError::EmptyRoot),
    {
        if root.as_str().is_empty() {
            Err(ConfigurationError::EmptyRoot)
        } else {
            Ok(AppendWriter { root })
        }
    }

    /// Plans the insert of `entry` at timestamp `ts` with record id `id`:
    /// the day directory and shard file for `entry.table` in the calendar
    /// hour of `ts`, and the frame encoding the payload together with its
    /// CRC-32-IEEE checksum.
    pub fn plan(&self, entry: &Entry, id: u32, ts: u32) -> (p: InsertPlan)
        requires
            entry.payload@.len() <= 0xFFFF_FFFF,
        ensures
            p.dir@ == day_dir_of(self.root@, entry.table@, ts),
            p.file@ == path_of(self.root@, entry.table@, ts),
            p.frame@ == frame_bytes(id, entry.payload@, crc32_of(entry.payload@)),
    {
        let dir = day_dir(self.root.as_str(), entry.table.as_str(), ts);
        let file = resolve(self.root.as_str(), entry.table.as_str(), ts);
        let frame = encode(&entry.payload, id);
        InsertPlan { dir, file, frame }
    }

    /// Plans an insert at the current wall-clock time, reading the clock
    /// once. Returns the timestamp together with the plan for it, or `None`
    /// when the clock reads outside the engine's range (before 1970 or past
    /// the year 2106).
    pub fn plan_now(&self, entry: &Entry, id: u32) -> (r: Option<(u32, InsertPlan)>)
        requires
            entry.payload@.len() <= 0xFFFF_FFFF,
        ensures
            (r matches Some(pair) ==> {
                &&& pair.1.dir@ == day_dir_of(self.root@, entry.table@, pair.0)
                &&& pair.1.file@ == path_of(self.root@, entry.table@, pair.0)
                &&& pair.1.frame@ == frame_bytes(id, entry.payload@, crc32_of(entry.payload@))
            }),
    {
        match now_timestamp() {
            Some(ts) => Some((ts, self.plan(entry, id, ts))),
            None => None,
        }
    }
}

/// Relies on `std::time::SystemTime::now` and its `duration_since`: the
/// current wall-clock time as a Unix timestamp, read without any panicking
/// path. `None` when the clock reads before 1970 (`duration_since` errs) or
/// past the range of `u32` (the year 2106). Nothing is assumed about the
/// value the clock returns.
#[verifier::external_body]
fn now_timestamp() -> (r: Option<u32>) {
    std::time::SystemTime::now()
        .duration_since(std::time::UNIX_EPOCH)
        .ok()
        .and_then(|d| u32::try_from(d.as_secs()).ok())
}

} // verus!
