use stor_age::ErrorKind;
use stor_age::spectrum_scale::AgeLists;
use stor_age::spectrum_scale::aggregate_lists;
use stor_age::spectrum_scale::sum_list;

// A list file record as mmapplypolicy writes it: inode, generation and
// snapshot id, then, after a second separator, the SHOW output (here the
// file size) and the path. The size is the fifth space-separated field.
fn record(size: u64, path: &str) -> String {
    format!("421133 917596246 0  {} -- {}\n", size, path)
}

#[test]
fn sum_list_sums_sizes_and_counts_records() {
    let content = format!("{}{}", record(100, "/data/a"), record(250, "/data/b"));

    let (bytes, files) = sum_list(content.as_bytes()).unwrap();

    assert_eq!(bytes, 350);
    assert_eq!(files, 2);
}

#[test]
fn sum_list_of_empty_content_is_zero() {
    let (bytes, files) = sum_list(b"").unwrap();

    assert_eq!(bytes, 0);
    assert_eq!(files, 0);
}

#[test]
fn sum_list_takes_the_fifth_field() {
    // the path may hold more spaces; only the fifth field is the size
    let content = "1 2 3 4 77 -- /with spaces/in the path\n";

    let (bytes, files) = sum_list(content.as_bytes()).unwrap();

    assert_eq!(bytes, 77);
    assert_eq!(files, 1);
}

#[test]
fn sum_list_rejects_short_records() {
    let e = sum_list(b"too short\n").unwrap_err();

    assert_eq!(e.kind, ErrorKind::CorruptOutput);
}

#[test]
fn sum_list_rejects_non_numeric_sizes() {
    let e = sum_list(b"1 2 3 4 not-a-number -- /data/a\n").unwrap_err();

    assert_eq!(e.kind, ErrorKind::CorruptOutput);
}

#[test]
fn sum_list_rejects_overflowing_sums() {
    let content = format!(
        "{}{}",
        record(u64::MAX, "/data/a"),
        record(1, "/data/b"),
    );

    let e = sum_list(content.as_bytes()).unwrap_err();

    assert_eq!(e.kind, ErrorKind::CorruptOutput);
}

#[test]
fn aggregate_reflects_only_matching_lists() {
    // one 300-byte file touched ten days ago, ages [90, 365]: it matches
    // the access_90 window only; absent lists count as zero
    let total = Some(record(300, "/data/a").into_bytes());
    let lists = vec![
        AgeLists {
            age: 90,
            access: Some(record(300, "/data/a").into_bytes()),
            modify: None,
        },
        AgeLists { age: 365, access: None, modify: Some(Vec::new()) },
    ];

    let d = aggregate_lists(&total, &lists).unwrap();

    assert_eq!(d.get_total_bytes(), 300);
    assert_eq!(d.get_total_files(), 1);
    assert_eq!(d.get_ages(), vec![90, 365]);
    assert_eq!(d.get_accessed_bytes(90), Some(300));
    assert_eq!(d.get_accessed_files(90), Some(1));
    assert_eq!(d.get_modified_bytes(90), Some(0));
    assert_eq!(d.get_modified_files(90), Some(0));
    assert_eq!(d.get_accessed_bytes(365), Some(0));
    assert_eq!(d.get_modified_bytes(365), Some(0));
    assert_eq!(d.get_accessed_files(365), Some(0));
    assert_eq!(d.get_modified_files(365), Some(0));
}

#[test]
fn aggregate_of_no_lists_keeps_the_totals() {
    let total = Some(format!("{}{}", record(10, "/a"), record(20, "/b")).into_bytes());

    let d = aggregate_lists(&total, &Vec::new()).unwrap();

    assert_eq!(d.get_total_bytes(), 30);
    assert_eq!(d.get_total_files(), 2);
    assert_eq!(d.get_ages(), Vec::<u64>::new());
}

#[test]
fn aggregate_rejects_corrupt_total_list() {
    let total = Some(b"garbage".to_vec());

    let e = aggregate_lists(&total, &Vec::new()).unwrap_err();

    assert_eq!(e.kind, ErrorKind::CorruptOutput);
}

#[test]
fn aggregate_rejects_corrupt_age_list() {
    let total = Some(record(100, "/a").into_bytes());
    let lists = vec![AgeLists {
        age: 90,
        access: Some(b"1 2 3 4 broken -- /a\n".to_vec()),
        modify: None,
    }];

    let e = aggregate_lists(&total, &lists).unwrap_err();

    assert_eq!(e.kind, ErrorKind::CorruptOutput);
}

#[test]
fn aggregate_rejects_buckets_over_the_totals() {
    // an access list summing over the total list cannot come from one scan
    let total = Some(record(100, "/a").into_bytes());
    let lists = vec![AgeLists {
        age: 90,
        access: Some(format!("{}{}", record(100, "/a"), record(100, "/b")).into_bytes()),
        modify: None,
    }];

    let e = aggregate_lists(&total, &lists).unwrap_err();

    assert_eq!(e.kind, ErrorKind::CorruptOutput);
}
