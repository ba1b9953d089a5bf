use file_sys::codec::{encode, Record};
use file_sys::scanner::{RangeScanner, Scan, ScanStep};
use file_sys::writer::{AppendWriter, ConfigurationError, Entry};

/// Drives a scan against an in-memory picture of the file system: a list of
/// (shard path, shard bytes). Day directories exist exactly where some
/// shard lies under them.
fn drive(scan: &mut Scan, files: &[(String, Vec<u8>)]) -> Vec<Record> {
    let mut out = Vec::new();
    loop {
        match scan.next_step() {
            ScanStep::Finished => return out,
            ScanStep::ProbeDay(dir) => {
                let prefix = format!("{}/", dir);
                let present = files.iter().any(|(p, _)| p.starts_with(&prefix));
                scan.on_day(present);
            }
            ScanStep::ProbeHour(file) => {
                let present = files.iter().any(|(p, _)| *p == file);
                scan.on_hour(present);
            }
            ScanStep::ReadShard(file) => {
                let bytes = files.iter().find(|(p, _)| *p == file).map(|(_, b)| b.clone());
                out.extend(scan.on_shard(&bytes.expect("a probed shard exists")));
            }
        }
    }
}

#[test]
fn sparse_scan_is_empty_without_error() {
    // a five-day window over a file system that holds nothing at all
    let mut scan = Scan::new("data".to_string(), "levels".to_string(), 0, 5 * 86_400);
    let records = drive(&mut scan, &[]);
    assert!(records.is_empty());
}

#[test]
fn scanner_rejects_empty_root() {
    match RangeScanner::new(String::new()) {
        Err(ConfigurationError::EmptyRoot) => {}
        Ok(_) => panic!("an empty root is an invalid configuration"),
    }
}

#[test]
fn range_scanner_hands_out_scans() {
    let scanner = RangeScanner::new("data".to_string()).unwrap();
    let mut scan = scanner.scan("levels".to_string(), 0, 3599);
    let records = drive(&mut scan, &[]);
    assert!(records.is_empty());
}

#[test]
fn empty_window_is_already_finished() {
    let mut scan = Scan::new("data".to_string(), "levels".to_string(), 10, 9);
    let records = drive(&mut scan, &[]);
    assert!(records.is_empty());
}

#[test]
fn end_to_end_insert_then_scan() {
    // root `data`, table `levels`: insert payload b"42" with id 1700000000
    // at a timestamp whose hour bucket is 20231114/22 ...
    let writer = AppendWriter::new("data".to_string()).unwrap();
    let entry = Entry { table: "levels".to_string(), payload: vec![b'4', b'2'] };
    let plan = writer.plan(&entry, 1_700_000_000, 1_700_000_000);
    assert_eq!(plan.file, "data/levels/20231114/22");
    let files = vec![(plan.file.clone(), plan.frame.clone())];
    // ... then a scan of [1699999000, 1700001000] yields exactly that record
    let mut scan =
        Scan::new("data".to_string(), "levels".to_string(), 1_699_999_000, 1_700_001_000);
    let records = drive(&mut scan, &files);
    assert_eq!(records.len(), 1);
    assert_eq!(records[0].id, 1_700_000_000);
    assert_eq!(records[0].payload, vec![b'4', b'2']);
}

#[test]
fn window_filters_low_ids_and_stops_on_high() {
    let writer = AppendWriter::new("r".to_string()).unwrap();
    let t = |p: &[u8]| Entry { table: "t".to_string(), payload: p.to_vec() };
    // one shard in hour 0 holding ids 1, 5, 100 in order
    let mut shard0: Vec<u8> = Vec::new();
    shard0.extend(writer.plan(&t(b"low"), 1, 0).frame);
    shard0.extend(writer.plan(&t(b"mid"), 5, 0).frame);
    shard0.extend(writer.plan(&t(b"high"), 100, 0).frame);
    // a later shard that must never be reached: id 100 ends the scan
    let shard1 = writer.plan(&t(b"later"), 10, 3600).frame;
    let files = vec![
        ("r/t/19700101/00".to_string(), shard0),
        ("r/t/19700101/01".to_string(), shard1),
    ];
    let mut scan = Scan::new("r".to_string(), "t".to_string(), 4, 50);
    let records = drive(&mut scan, &files);
    assert_eq!(records.len(), 1);
    assert_eq!(records[0].id, 5);
    assert_eq!(records[0].payload, b"mid".to_vec());
}

#[test]
fn corrupt_shard_contained_scan_continues() {
    // hour 0: two valid frames, then a frame cut short mid-write;
    // hour 1: one valid frame — the scan must still reach it
    let mut shard0: Vec<u8> = Vec::new();
    shard0.extend(encode(&vec![b'a'], 100));
    shard0.extend(encode(&vec![b'b'], 200));
    let cut = encode(&vec![b'c'], 300);
    shard0.extend(&cut[..cut.len() - 3]);
    let shard1 = encode(&vec![b'd'], 400);
    let files = vec![
        ("data/levels/19700101/00".to_string(), shard0),
        ("data/levels/19700101/01".to_string(), shard1),
    ];
    let mut scan = Scan::new("data".to_string(), "levels".to_string(), 0, 10_000);
    let records = drive(&mut scan, &files);
    assert_eq!(records.len(), 3);
    assert_eq!(records[0].id, 100);
    assert_eq!(records[1].id, 200);
    assert_eq!(records[2].id, 400);
}

#[test]
fn day_skip_reaches_later_data() {
    // nothing on the first days, one record on day 4
    let ts: u32 = 4 * 86_400 + 7 * 3600;
    let writer = AppendWriter::new("data".to_string()).unwrap();
    let entry = Entry { table: "raw".to_string(), payload: vec![9, 9] };
    let plan = writer.plan(&entry, ts, ts);
    let files = vec![(plan.file.clone(), plan.frame.clone())];
    let mut scan = Scan::new("data".to_string(), "raw".to_string(), 0, 6 * 86_400);
    let records = drive(&mut scan, &files);
    assert_eq!(records.len(), 1);
    assert_eq!(records[0].id, ts);
}

#[test]
fn records_in_insertion_order_across_one_shard() {
    let mut shard: Vec<u8> = Vec::new();
    for id in [10u32, 11, 12, 13, 14] {
        shard.extend(encode(&vec![id as u8], id));
    }
    let files = vec![("d/t/19700101/00".to_string(), shard)];
    let mut scan = Scan::new("d".to_string(), "t".to_string(), 0, 3599);
    let records = drive(&mut scan, &files);
    let ids: Vec<u32> = records.iter().map(|r| r.id).collect();
    assert_eq!(ids, vec![10, 11, 12, 13, 14]);
}
