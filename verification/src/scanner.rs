//! The time-range scan.
//!
//! A scan walks the candidate shard files of a table in time order, decodes
//! each shard found, and yields the records whose id falls inside the
//! requested `[start, end]` window. The engine cannot touch the file system
//! itself, so a [`Scan`] is a state machine that a driver runs: ask
//! [`Scan::next_step`] what to do, perform that one probe or read with
//! ordinary file I/O, and report the answer back. Missing directories and
//! files are expected — sparse data — and are skipped silently; a failure to
//! open or read a shard that exists is an unexpected environment failure and
//! the driver should stop the scan and propagate it, which keeps "no data in
//! range" and "the scan failed" distinguishable outcomes.
//!
//! A decode error inside one shard abandons the rest of that shard only:
//! the scan moves on to the next hour. A record above the window's end
//! finishes the whole scan, since shards are time-ordered by construction.
//!
//! Concurrent appends are tolerated, not coordinated: a reader that
//! observes a shard mid-append sees a partially written trailing frame,
//! which the checksum turns into a detected decode error that costs at most
//! that last record.

use crate::codec::{decode_stream, parse_frames, records_view, Record, RecordModel};
use crate::shard::{day_dir, day_dir_of, path_of, resolve};
use crate::writer::ConfigurationError;
use vstd::arithmetic::div_mod::lemma_fundamental_div_mod;
use vstd::prelude::*;

verus! {

/// Filters the records decoded from one shard by the scan window: a record
/// with id below `start` is skipped, one with id above `end` ends the whole
/// scan on the spot, every other record is yielded in order. Returns the
/// yielded records and whether the scan must stop.
pub open spec fn filter_window(rs: Seq<RecordModel>, start: u32, end: u32) -> (Seq<
    RecordModel,
>, bool)
    decreases rs.len(),
{
    if rs.len() == 0 {
        (Seq::empty(), false)
    } else {
        let r0 = rs.first();
        if r0.id > end {
            (Seq::empty(), true)
        } else {
            let rest = filter_window(rs.drop_first(), start, end);
            if r0.id < start {
                rest
            } else {
                (seq![r0] + rest.0, rest.1)
            }
        }
    }
}

/// What the driver must do next.
#[derive(Debug)]
pub enum ScanStep {
    /// Check whether this day directory exists and report with
    /// [`Scan::on_day`].
    ProbeDay(String),
    /// Check whether this shard file exists and report with
    /// [`Scan::on_hour`].
    ProbeHour(String),
    /// Read this shard file whole and hand the bytes to
    /// [`Scan::on_shard`]. The file was just probed: failing to open or
    /// read it now is fatal to the scan, and the driver should propagate
    /// the error instead of continuing.
    ReadShard(String),
    /// The scan is complete.
    Finished,
}

/// The scanner's position in its walk.
#[derive(Debug, Clone, Copy, PartialEq, Eq, Structural)]
pub enum ScanPhase {
    /// About to probe the day directory of the cursor.
    SeekDay,
    /// The day directory exists; about to probe the shard file of the
    /// cursor's hour.
    SeekHour,
    /// The shard file exists; about to read it.
    ReadShard,
    /// Past the end of the window, or an upper-bound record was seen.
    Done,
}

/// The first instant of the hour after `c`.
pub open spec fn next_hour_start(c: u64) -> int {
    (c as int / 3600 + 1) * 3600
}

/// The first instant of the day after `c`.
pub open spec fn next_day_start(c: u64) -> int {
    (c as int / 86400 + 1) * 86400
}

/// Skipping to the next hour or day moves strictly forward, and by no more
/// than one hour or day.
pub proof fn lemma_advance_strict(c: u64)
    ensures
        c < next_hour_start(c) <= c + 3600,
        c < next_day_start(c) <= c + 86400,
{
    lemma_fundamental_div_mod(c as int, 3600);
    lemma_fundamental_div_mod(c as int, 86400);
}

/// One in-progress scan of the table at `root/table` for records whose id
/// lies in `[start, end]`, with the cursor walking timestamps from `start`.
#[derive(Debug)]
pub struct Scan {
    /// The root directory every table lives under.
    pub root: String,
    /// The table being scanned.
    pub table: String,
    /// The window's inclusive lower bound, also the first cursor position.
    pub start: u32,
    /// The window's inclusive upper bound.
    pub end: u32,
    /// The timestamp whose shard is considered next. Held as `u64` so that
    /// advancing past the window's end cannot overflow.
    pub cursor: u64,
    /// The scanner's position in its walk.
    pub phase: ScanPhase,
}

impl Scan {
    /// The scanner invariant: while the scan is running, the cursor stays
    /// inside the window.
    pub open spec fn wf(&self) -> bool {
        self.phase != ScanPhase::Done ==> self.start <= self.cursor <= self.end
    }

    /// The state after the cursor moved to the start of the next hour:
    /// still seeking if that is inside the window, finished otherwise.
    pub open spec fn advanced_hour(self) -> Scan {
        let next = next_hour_start(self.cursor);
        if next <= self.end {
            Scan { cursor: next as u64, phase: ScanPhase::SeekDay, ..self }
        } else {
            Scan { cursor: next as u64, phase: ScanPhase::Done, ..self }
        }
    }

    /// The state after a day probe: when the directory is present, go probe
    /// the hour file; when absent, skip to the start of the next day —
    /// sparing the probes of up to 24 hour files that cannot exist.
    pub open spec fn day_step(self, present: bool) -> Scan {
        if present {
            Scan { phase: ScanPhase::SeekHour, ..self }
        } else {
            let next = next_day_start(self.cursor);
            if next <= self.end {
                Scan { cursor: next as u64, phase: ScanPhase::SeekDay, ..self }
            } else {
                Scan { cursor: next as u64, phase: ScanPhase::Done, ..self }
            }
        }
    }

    /// The state after an hour probe: when the shard file is present, go
    /// read it; when absent, move to the next hour.
    pub open spec fn hour_step(self, present: bool) -> Scan {
        if present {
            Scan { phase: ScanPhase::ReadShard, ..self }
        } else {
            self.advanced_hour()
        }
    }

    /// The state after a shard's bytes were consumed: finished when an
    /// upper-bound record was seen, on to the next hour otherwise.
    pub open spec fn shard_step(self, stop: bool) -> Scan {
        if stop {
            Scan { phase: ScanPhase::Done, ..self }
        } else {
            self.advanced_hour()
        }
    }

    /// Starts a scan of `table` under `root` for ids in `[start, end]`. An
    /// empty window (`start > end`) is already finished.
    pub fn new(root: String, table: String, start: u32, end: u32) -> (s: Scan)
        ensures
            s.root@ == root@,
            s.table@ == table@,
            s.start == start,
            s.end == end,
            s.cursor == start,
            s.phase == (if start <= end {
                ScanPhase::SeekDay
            } else {
                ScanPhase::Done
            }),
            s.wf(),
    {
        let phase = if start <= end {
            ScanPhase::SeekDay
        } else {
            ScanPhase::Done
        };
        Scan { root, table, start, end, cursor: start as u64, phase }
    }

    /// What the driver must do next: probe the cursor's day directory, probe
    /// or read the cursor's shard file, or nothing — the scan is done.
    pub fn next_step(&self) -> (st: ScanStep)
        requires
            self.wf(),
        ensures
            (self.phase == ScanPhase::SeekDay ==> (st matches ScanStep::ProbeDay(p) && p@
                == day_dir_of(self.root@, self.table@, self.cursor as u32))),
            (self.phase == ScanPhase::SeekHour ==> (st matches ScanStep::ProbeHour(p) && p@
                == path_of(self.root@, self.table@, self.cursor as u32))),
            (self.phase == ScanPhase::ReadShard ==> (st matches ScanStep::ReadShard(p) && p@
                == path_of(self.root@, self.table@, self.cursor as u32))),
            (self.phase == ScanPhase::Done ==> (st matches ScanStep::Finished)),
    {
        match self.phase {
            ScanPhase::SeekDay => ScanStep::ProbeDay(
                day_dir(self.root.as_str(), self.table.as_str(), self.cursor as u32),
            ),
            ScanPhase::SeekHour => ScanStep::ProbeHour(
                resolve(self.root.as_str(), self.table.as_str(), self.cursor as u32),
            ),
            ScanPhase::ReadShard => ScanStep::ReadShard(
                resolve(self.root.as_str(), self.table.as_str(), self.cursor as u32),
            ),
            ScanPhase::Done => ScanStep::Finished,
        }
    }

    /// Reports whether the day directory of the cursor exists.
    pub fn on_day(&mut self, present: bool)
        requires
            old(self).wf(),
            old(self).phase == ScanPhase::SeekDay,
        ensures
            *final(self) == old(self).day_step(present),
            final(self).wf(),
    {
        proof {
            lemma_advance_strict(self.cursor);
        }
        if present {
            self.phase = ScanPhase::SeekHour;
        } else {
            let next = (self.cursor / 86400 + 1) * 86400;
            self.cursor = next;
            if next > self.end as u64 {
                self.phase = ScanPhase::Done;
            } else {
                self.phase = ScanPhase::SeekDay;
            }
        }
    }

    /// Reports whether the shard file of the cursor's hour exists.
    pub fn on_hour(&mut self, present: bool)
        requires
            old(self).wf(),
            old(self).phase == ScanPhase::SeekHour,
        ensures
            *final(self) == old(self).hour_step(present),
            final(self).wf(),
    {
        if present {
            self.phase = ScanPhase::ReadShard;
        } else {
            self.advance_hour();
        }
    }

    fn advance_hour(&mut self)
        requires
            old(self).start <= old(self).cursor <= old(self).end,
        ensures
            *final(self) == old(self).advanced_hour(),
            final(self).wf(),
    {
        proof {
            lemma_advance_strict(self.cursor);
        }
        let next = (self.cursor / 3600 + 1) * 3600;
        self.cursor = next;
        if next > self.end as u64 {
            self.phase = ScanPhase::Done;
        } else {
            self.phase = ScanPhase::SeekDay;
        }
    }

    /// Consumes the bytes of the shard file just read and yields, in write
    /// order, the records of its valid frames whose ids fall inside the
    /// window. A decode error abandons the rest of this shard only; a
    /// record above the window's end finishes the whole scan; otherwise the
    /// scan moves on to the next hour.
    pub fn on_shard(&mut self, bytes: &Vec<u8>) -> (recs: Vec<Record>)
        requires
            old(self).wf(),
            old(self).phase == ScanPhase::ReadShard,
        ensures
            records_view(recs@) == filter_window(
                parse_frames(bytes@).records,
                old(self).start,
                old(self).end,
            ).0,
            *final(self) == old(self).shard_step(
                filter_window(parse_frames(bytes@).records, old(self).start, old(self).end).1,
            ),
            final(self).wf(),
    {
        let ghost orig = parse_frames(bytes@).records;
        let start = self.start;
        let end = self.end;
        let decoded = decode_stream(bytes);
        let mut rest = decoded.records;
        let mut out: Vec<Record> = Vec::new();
        let mut stop = false;
        proof {
            assert(records_view(rest@) =~= orig);
            assert(records_view(out@) =~= Seq::<RecordModel>::empty());
            assert(records_view(out@) + filter_window(records_view(rest@), start, end).0
                =~= filter_window(orig, start, end).0);
        }
        while rest.len() > 0 && !stop
            invariant
                start == self.start,
                end == self.end,
                !stop ==> {
                    &&& filter_window(orig, start, end).0 == records_view(out@) + filter_window(
                        records_view(rest@),
                        start,
                        end,
                    ).0
                    &&& filter_window(orig, start, end).1 == filter_window(
                        records_view(rest@),
                        start,
                        end,
                    ).1
                },
                stop ==> {
                    &&& filter_window(orig, start, end).0 == records_view(out@)
                    &&& filter_window(orig, start, end).1
                },
            decreases rest@.len(),
        {
            let ghost rv_old = records_view(rest@);
            let ghost out_old = records_view(out@);
            let r = rest.remove(0);
            proof {
                assert(records_view(rest@) =~= rv_old.drop_first());
                assert(rv_old.first() == r@);
            }
            if r.id > end {
                stop = true;
                proof {
                    assert(out_old + Seq::<RecordModel>::empty() =~= out_old);
                }
            } else if r.id < start {
            } else {
                proof {
                    assert(records_view(out@.push(r)) =~= out_old + seq![r@]);
                    assert((out_old + seq![r@]) + filter_window(
                        records_view(rest@),
                        start,
                        end,
                    ).0 =~= out_old + (seq![r@] + filter_window(records_view(rest@), start, end).0));
                }
                out.push(r);
            }
        }
        if stop {
            self.phase = ScanPhase::Done;
        } else {
            proof {
                assert(records_view(rest@).len() == 0);
                assert(records_view(out@) + Seq::<RecordModel>::empty() =~= records_view(out@));
            }
            self.advance_hour();
        }
        out
    }
}

/// Starts scans of tables under a fixed root directory.
#[derive(Debug)]
pub struct RangeScanner {
    /// The root directory every table lives under.
    pub root: String,
}

impl RangeScanner {
    /// Accepts any nonempty root directory; an empty root is an invalid
    /// configuration and is rejected, and nothing else is.
    pub fn new(root: String) -> (r: Result<RangeScanner, ConfigurationError>)
        ensures
            root@.len() > 0 ==> (r matches Ok(s) && s.root@ == root@),
            root@.len() == 0 ==> (r matches Err(e) && e == ConfigurationError::EmptyRoot),
    {
        if root.as_str().is_empty() {
            Err(ConfigurationError::EmptyRoot)
        } else {
            Ok(RangeScanner { root })
        }
    }

    /// Starts a scan of `table` for record ids in `[start, end]`.
    pub fn scan(&self, table: String, start: u32, end: u32) -> (s: Scan)
        ensures
            s.root@ == self.root@,
            s.table@ == table@,
            s.start == start,
            s.end == end,
            s.cursor == start,
            s.phase == (if start <= end {
                ScanPhase::SeekDay
            } else {
                ScanPhase::Done
            }),
            s.wf(),
    {
        Scan::new(self.root.clone(), table, start, end)
    }
}

/// The rank of a phase in the scan's forward progress: a day probe may keep
/// the cursor still (when the directory is present), so it outranks the
/// hour probe at the same cursor.
pub open spec fn phase_rank(p: ScanPhase) -> int {
    if p == ScanPhase::SeekDay {
        1
    } else {
        0
    }
}

/// The scanner's whole course over a window none of whose shard files
/// exists: `dirs` answers each day probe (a day directory may well exist
/// without shard files in the window), and every hour probe is answered
/// "absent". No shard is ever read, so no record is ever yielded.
pub open spec fn run_no_shards(s: Scan, dirs: spec_fn(u64) -> bool) -> Scan
    decreases s.end + 86400 - s.cursor, phase_rank(s.phase),
        when (s.phase == ScanPhase::SeekDay || s.phase == ScanPhase::SeekHour) ==> s.cursor
            <= s.end
        via run_no_shards_decreases
{
    if s.phase == ScanPhase::SeekDay {
        run_no_shards(s.day_step(dirs(s.cursor)), dirs)
    } else if s.phase == ScanPhase::SeekHour {
        run_no_shards(s.hour_step(false), dirs)
    } else {
        s
    }
}

#[via_fn]
proof fn run_no_shards_decreases(s: Scan, dirs: spec_fn(u64) -> bool) {
    lemma_advance_strict(s.cursor);
}

/// Sparse-range skip: scanning a window whose shards never existed on disk
/// yields an empty result without error. Records are only ever produced by
/// [`Scan::on_shard`]; driven with these answers, the scanner never reaches
/// a shard read and always finishes.
pub proof fn lemma_sparse_scan(s: Scan, dirs: spec_fn(u64) -> bool)
    requires
        s.wf(),
        s.phase != ScanPhase::ReadShard,
    ensures
        run_no_shards(s, dirs).phase == ScanPhase::Done,
    decreases s.end + 86400 - s.cursor, phase_rank(s.phase),
{
    lemma_advance_strict(s.cursor);
    if s.phase == ScanPhase::SeekDay {
        lemma_sparse_scan(s.day_step(dirs(s.cursor)), dirs);
    } else if s.phase == ScanPhase::SeekHour {
        lemma_sparse_scan(s.hour_step(false), dirs);
    }
}

} // verus!
