use file_sys::writer::{AppendWriter, ConfigurationError, Entry};

#[test]
fn writer_rejects_empty_root() {
    match AppendWriter::new(String::new()) {
        Err(ConfigurationError::EmptyRoot) => {}
        Ok(_) => panic!("an empty root is an invalid configuration"),
    }
}

#[test]
fn writer_accepts_nonempty_root() {
    let w = AppendWriter::new("data".to_string()).unwrap();
    assert_eq!(w.root, "data");
}

#[test]
fn plan_paths_and_frame() {
    let w = AppendWriter::new("data".to_string()).unwrap();
    let e = Entry { table: "levels".to_string(), payload: vec![b'4', b'2'] };
    let p = w.plan(&e, 1_700_000_000, 1_700_000_000);
    assert_eq!(p.dir, "data/levels/20231114");
    assert_eq!(p.file, "data/levels/20231114/22");
    assert_eq!(
        p.frame,
        vec![0x65, 0x53, 0xF1, 0x00, 0x00, 0x00, 0x00, 0x02, 0x34, 0x32, 0x32, 0x24, 0xB0, 0x88]
    );
}

#[test]
fn plan_same_hour_same_shard() {
    let w = AppendWriter::new("data".to_string()).unwrap();
    let e = Entry { table: "levels".to_string(), payload: vec![1] };
    let p1 = w.plan(&e, 1, 1_700_000_000);
    let p2 = w.plan(&e, 2, 1_700_001_000);
    assert_eq!(p1.file, p2.file);
}

#[test]
fn plan_now_uses_the_clock() {
    let w = AppendWriter::new("data".to_string()).unwrap();
    let e = Entry { table: "levels".to_string(), payload: vec![7] };
    match w.plan_now(&e, 7) {
        Some((ts, p)) => {
            // the plan is the one for the returned timestamp
            let again = w.plan(&e, 7, ts);
            assert_eq!(p.file, again.file);
            assert_eq!(p.dir, again.dir);
            assert_eq!(p.frame, again.frame);
            assert!(p.file.starts_with("data/levels/"));
        }
        None => panic!("the clock reads between 1970 and 2106"),
    }
}
