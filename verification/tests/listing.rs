use file_commander::fs::{format_minute, format_size, lies_in, listing_of, sort_items, FileItem, RawEntry};
use file_commander::path::FsPath;

fn item(name: &str, is_dir: bool) -> FileItem {
    FileItem {
        name: name.to_string(),
        path: FsPath::from_text(&format!("/data/{}", name)),
        is_dir,
        size: 10,
        modified: "2024-01-02 03:04".to_string(),
    }
}

fn names(items: &[FileItem]) -> Vec<String> {
    items.iter().map(|i| i.name.clone()).collect()
}

/// The size text as `size as f64` divided by a power of 1024 and printed with two decimals.
fn float_size_text(size: u64) -> String {
    let units = ["B", "KB", "MB", "GB", "TB"];
    if size == 0 {
        return "0 B".to_string();
    }
    let i = (size as f64).log(1024.0).floor() as usize;
    let i = std::cmp::min(i, units.len() - 1);
    let p = 1024.0_f64.powi(i as i32);
    format!("{:.2} {}", size as f64 / p, units[i])
}

#[test]
fn format_size_zero_and_bytes() {
    assert_eq!(format_size(0), "0 B");
    assert_eq!(format_size(1), "1.00 B");
    assert_eq!(format_size(1023), "1023.00 B");
}

#[test]
fn format_size_units() {
    assert_eq!(format_size(1024), "1.00 KB");
    assert_eq!(format_size(1536), "1.50 KB");
    assert_eq!(format_size(1048576), "1.00 MB");
    assert_eq!(format_size(1073741824), "1.00 GB");
    assert_eq!(format_size(1099511627776), "1.00 TB");
    assert_eq!(format_size(1125899906842624), "1024.00 TB");
    assert_eq!(format_size(u64::MAX), "16777216.00 TB");
}

#[test]
fn format_size_rounds_ties_to_even() {
    // 1152 / 1024 = 1.125 exactly, 1160 / 1024 = 1.1328125
    assert_eq!(format_size(1152), "1.12 KB");
    assert_eq!(format_size(1160), "1.13 KB");
    assert_eq!(format_size(1048575), "1024.00 KB");
}

#[test]
fn format_size_matches_float_rendering() {
    let mut sizes: Vec<u64> = Vec::new();
    for k in 0..5u32 {
        let base = 1024u64.pow(k);
        for d in 0..2000u64 {
            sizes.push(base.saturating_add(d));
            sizes.push(base.saturating_sub(d));
            sizes.push(base.saturating_mul(3).saturating_add(d * 97));
        }
    }
    let mut x: u64 = 0x9E37_79B9_7F4A_7C15;
    for _ in 0..20000 {
        x ^= x << 13;
        x ^= x >> 7;
        x ^= x << 17;
        sizes.push(x);
        sizes.push(x >> (x % 64));
    }
    for shift in 50..64u32 {
        let b = 1u64 << shift;
        for d in 0..300u64 {
            sizes.push(b + d);
            sizes.push(b - d);
        }
    }
    for s in sizes {
        assert_eq!(format_size(s), float_size_text(s), "size {}", s);
    }
}

#[test]
fn sort_puts_directories_first_then_names_ignoring_case() {
    let items = vec![item("b.txt", false), item("Zeta", true), item("a.txt", false), item("alpha", true), item("B", false)];
    let sorted = sort_items(items);
    assert_eq!(names(&sorted), vec!["alpha", "Zeta", "a.txt", "B", "b.txt"]);
}

#[test]
fn sort_keeps_equal_names_in_their_order() {
    let items = vec![item("readme", false), item("README", false), item("Readme", false), item("other", true)];
    let sorted = sort_items(items);
    assert_eq!(names(&sorted), vec!["other", "readme", "README", "Readme"]);
}

#[test]
fn sort_uses_unicode_lowercase() {
    let items = vec![item("Ärger", false), item("zebra", false), item("B", false), item("a", false)];
    let sorted = sort_items(items);
    assert_eq!(names(&sorted), vec!["a", "B", "zebra", "Ärger"]);
}

#[test]
fn sort_of_sorted_listing_is_unchanged() {
    let items = vec![item("x", true), item("Y", true), item("a", false), item("b", false)];
    let once = sort_items(items.clone());
    let twice = sort_items(once.clone());
    assert_eq!(once, twice);
    assert_eq!(once, items);
}

#[test]
fn sort_of_empty_listing() {
    assert!(sort_items(Vec::new()).is_empty());
}

#[test]
fn whole_units_show_two_zero_decimals() {
    assert_eq!(format_size(5 * 1024 * 1024 * 1024), "5.00 GB");
    assert_eq!(format_size(1023 * 1024), "1023.00 KB");
    assert_eq!(format_size(7 * 1099511627776), "7.00 TB");
    assert_eq!(format_size(512), "512.00 B");
}

fn raw(path: &str, is_dir: bool, local_secs: i64) -> RawEntry {
    RawEntry { path: FsPath::from_text(path), is_dir, size: 7, local_secs }
}

#[test]
fn minute_text_of_local_seconds() {
    assert_eq!(format_minute(0), Some("1970-01-01 00:00".to_string()));
    assert_eq!(format_minute(1714979280), Some("2024-05-06 07:08".to_string()));
    assert_eq!(format_minute(1714979339), Some("2024-05-06 07:08".to_string()));
    assert_eq!(format_minute(-61), Some("1969-12-31 23:58".to_string()));
    assert_eq!(format_minute(i64::MAX), None);
}

#[test]
fn listing_of_names_times_and_orders_entries() {
    let dir = FsPath::from_text("/home/u/");
    let entries = vec![
        raw("/home/u/notes.txt", false, 0),
        raw("/home/u/Docs", true, 1714979280),
        raw("/home/u/apps", true, -61),
    ];
    let listing = listing_of(&dir, entries).unwrap();
    assert_eq!(names(&listing), vec!["apps", "Docs", "notes.txt"]);
    assert_eq!(listing[0].modified, "1969-12-31 23:58");
    assert_eq!(listing[1].modified, "2024-05-06 07:08");
    assert_eq!(listing[2].modified, "1970-01-01 00:00");
    assert_eq!(listing[1].path.to_text(), "/home/u/Docs");
    assert!(listing[1].is_dir && !listing[2].is_dir);
    assert_eq!(listing[2].size, 7);
}

#[test]
fn listing_of_without_a_time_is_none() {
    let dir = FsPath::from_text("/home/u");
    let entries = vec![raw("/home/u/a", false, 0), raw("/home/u/b", false, i64::MAX)];
    assert!(listing_of(&dir, entries).is_none());
    assert_eq!(listing_of(&dir, Vec::new()), Some(Vec::new()));
}

#[test]
fn entries_lie_in_their_directory() {
    let dir = FsPath::from_text("/home/u");
    assert!(lies_in(&dir, &FsPath::from_text("/home/u/a")));
    assert!(lies_in(&FsPath::from_text("/home/u/"), &FsPath::from_text("/home/u/./a/")));
    assert!(!lies_in(&dir, &FsPath::from_text("/home/a")));
    assert!(!lies_in(&dir, &FsPath::from_text("/home/u/a/b")));
    assert!(!lies_in(&dir, &FsPath::from_text("/")));
}
