use file_sys::shard::{day_dir, resolve};

#[test]
fn resolve_epoch() {
    assert_eq!(resolve("data", "levels", 0), "data/levels/19700101/00");
}

#[test]
fn resolve_known_hour() {
    assert_eq!(resolve("data", "levels", 1_700_000_000), "data/levels/20231114/22");
}

#[test]
fn resolve_leap_day() {
    assert_eq!(resolve("root", "t", 1_709_209_800), "root/t/20240229/12");
}

#[test]
fn resolve_last_timestamp() {
    assert_eq!(resolve("r", "x", u32::MAX), "r/x/21060207/06");
}

#[test]
fn resolve_same_hour_equal() {
    // 1700000000 and 1700001000 both fall in hour 22 of 2023-11-14 UTC
    assert_eq!(
        resolve("data", "levels", 1_700_000_000),
        resolve("data", "levels", 1_700_001_000)
    );
}

#[test]
fn resolve_hour_boundary_differs() {
    // one second apart, but on either side of an hour boundary
    assert_ne!(resolve("data", "levels", 3599), resolve("data", "levels", 3600));
    assert_eq!(resolve("data", "levels", 3599), "data/levels/19700101/00");
    assert_eq!(resolve("data", "levels", 3600), "data/levels/19700101/01");
}

#[test]
fn resolve_day_boundary_differs() {
    assert_ne!(resolve("d", "t", 86399), resolve("d", "t", 86400));
    assert_eq!(resolve("d", "t", 86400), "d/t/19700102/00");
}

#[test]
fn day_dir_is_resolve_without_hour() {
    let dir = day_dir("data", "levels", 1_700_000_000);
    assert_eq!(dir, "data/levels/20231114");
    let file = resolve("data", "levels", 1_700_000_000);
    assert!(file.starts_with(&format!("{}/", dir)));
}
