use stor_age::ErrorKind;
use stor_age::universal::FsTree;
use stor_age::universal::Threshold;
use stor_age::universal::scan_tree;
use stor_age::universal::thresholds;

const NOW: u64 = 1_000_000_000;

fn ths(ages: &[u64]) -> Vec<Threshold> {
    thresholds(ages, NOW)
}

#[test]
fn thresholds_convert_each_age_once() {
    let t = ths(&[1, 30]);

    assert_eq!(t.len(), 2);
    assert_eq!(t[0].age, 1);
    assert_eq!(t[0].cutoff, NOW - 86_400);
    assert_eq!(t[1].age, 30);
    assert_eq!(t[1].cutoff, NOW - 30 * 86_400);
}

#[test]
fn thresholds_clamp_at_the_epoch() {
    let t = thresholds(&[30], 86_400);

    assert_eq!(t[0].cutoff, 0);
}

#[test]
fn empty_directory_is_all_zero() {
    let t = ths(&[1, 30]);
    let root = FsTree::Dir { entries: vec![], dev: 1 };

    let d = scan_tree(&root, &t, None).unwrap();

    assert_eq!(d.get_total_bytes(), 0);
    assert_eq!(d.get_total_files(), 0);
    assert_eq!(d.get_ages(), vec![1, 30]);
    for age in [1, 30] {
        assert_eq!(d.get_accessed_bytes(age), Some(0));
        assert_eq!(d.get_modified_bytes(age), Some(0));
        assert_eq!(d.get_accessed_files(age), Some(0));
        assert_eq!(d.get_modified_files(age), Some(0));
    }
}

#[test]
fn single_fresh_file_counts_in_every_bucket() {
    let t = ths(&[1, 30]);
    let root = FsTree::Dir {
        entries: vec![FsTree::File { bytes: 100, accessed: NOW, modified: NOW, dev: 1 }],
        dev: 1,
    };

    let d = scan_tree(&root, &t, None).unwrap();

    assert_eq!(d.get_total_bytes(), 100);
    assert_eq!(d.get_total_files(), 1);
    for age in [1, 30] {
        assert_eq!(d.get_accessed_bytes(age), Some(100));
        assert_eq!(d.get_modified_bytes(age), Some(100));
        assert_eq!(d.get_accessed_files(age), Some(1));
        assert_eq!(d.get_modified_files(age), Some(1));
    }
}

#[test]
fn old_file_counts_only_in_totals() {
    let t = ths(&[1]);
    let root = FsTree::Dir {
        entries: vec![FsTree::File { bytes: 70, accessed: 0, modified: 0, dev: 1 }],
        dev: 1,
    };

    let d = scan_tree(&root, &t, None).unwrap();

    assert_eq!(d.get_total_bytes(), 70);
    assert_eq!(d.get_total_files(), 1);
    assert_eq!(d.get_accessed_bytes(1), Some(0));
    assert_eq!(d.get_modified_bytes(1), Some(0));
}

#[test]
fn subtrees_merge_upward() {
    let t = ths(&[1]);
    let sub = FsTree::Dir {
        entries: vec![FsTree::File { bytes: 30, accessed: NOW, modified: 0, dev: 1 }],
        dev: 1,
    };
    let root = FsTree::Dir {
        entries: vec![
            FsTree::File { bytes: 100, accessed: 0, modified: NOW, dev: 1 },
            sub,
        ],
        dev: 1,
    };

    let d = scan_tree(&root, &t, None).unwrap();

    assert_eq!(d.get_total_bytes(), 130);
    assert_eq!(d.get_total_files(), 2);
    assert_eq!(d.get_accessed_bytes(1), Some(30));
    assert_eq!(d.get_modified_bytes(1), Some(100));
    assert_eq!(d.get_accessed_files(1), Some(1));
    assert_eq!(d.get_modified_files(1), Some(1));
}

#[test]
fn denied_subdirectory_contributes_zero_without_failing() {
    let t = ths(&[1]);
    let with_denied = FsTree::Dir {
        entries: vec![
            FsTree::File { bytes: 10, accessed: NOW, modified: NOW, dev: 1 },
            FsTree::DeniedDir { dev: 1 },
        ],
        dev: 1,
    };

    let d = scan_tree(&with_denied, &t, None).unwrap();

    assert_eq!(d.get_total_bytes(), 10);
    assert_eq!(d.get_total_files(), 1);
    assert_eq!(d.get_accessed_bytes(1), Some(10));
}

#[test]
fn denied_root_is_benign_too() {
    let t = ths(&[1]);
    let root = FsTree::DeniedDir { dev: 1 };

    let d = scan_tree(&root, &t, None).unwrap();

    assert_eq!(d.get_total_bytes(), 0);
    assert_eq!(d.get_total_files(), 0);
}

#[test]
fn other_listing_failure_fails_the_root() {
    let t = ths(&[1]);
    let root = FsTree::Dir {
        entries: vec![
            FsTree::File { bytes: 10, accessed: NOW, modified: NOW, dev: 1 },
            FsTree::FailedDir { dev: 1 },
        ],
        dev: 1,
    };

    let e = scan_tree(&root, &t, None).unwrap_err();

    assert_eq!(e.kind, ErrorKind::Io);
}

#[test]
fn unreadable_metadata_fails_the_root() {
    let t = ths(&[1]);
    let root = FsTree::Dir { entries: vec![FsTree::Unreadable], dev: 1 };

    let e = scan_tree(&root, &t, None).unwrap_err();

    assert_eq!(e.kind, ErrorKind::Io);
}

#[test]
fn symlink_is_not_descended_into() {
    let t = ths(&[1]);
    let root = FsTree::Dir {
        entries: vec![
            FsTree::File { bytes: 25, accessed: NOW, modified: NOW, dev: 1 },
            FsTree::Symlink,
        ],
        dev: 1,
    };

    let d = scan_tree(&root, &t, None).unwrap();

    // the linked content is neither counted nor walked
    assert_eq!(d.get_total_bytes(), 25);
    assert_eq!(d.get_total_files(), 1);
}

#[test]
fn special_files_are_skipped() {
    let t = ths(&[1]);
    let root = FsTree::Dir {
        entries: vec![FsTree::Other, FsTree::Other],
        dev: 1,
    };

    let d = scan_tree(&root, &t, None).unwrap();

    assert_eq!(d.get_total_bytes(), 0);
    assert_eq!(d.get_total_files(), 0);
}

#[test]
fn one_file_system_skips_other_devices() {
    let t = ths(&[1]);
    let root = FsTree::Dir {
        entries: vec![
            FsTree::File { bytes: 10, accessed: NOW, modified: NOW, dev: 1 },
            FsTree::File { bytes: 100, accessed: NOW, modified: NOW, dev: 2 },
            FsTree::Dir {
                entries: vec![FsTree::File { bytes: 1000, accessed: NOW, modified: NOW, dev: 2 }],
                dev: 2,
            },
        ],
        dev: 1,
    };

    let crossing = scan_tree(&root, &t, None).unwrap();
    assert_eq!(crossing.get_total_bytes(), 1110);

    let bounded = scan_tree(&root, &t, Some(1)).unwrap();
    assert_eq!(bounded.get_total_bytes(), 10);
    assert_eq!(bounded.get_total_files(), 1);
    assert_eq!(bounded.get_accessed_bytes(1), Some(10));
}

#[test]
fn largest_file_size_is_carried() {
    let t = ths(&[1]);
    let root = FsTree::Dir {
        entries: vec![FsTree::File { bytes: u64::MAX, accessed: NOW, modified: NOW, dev: 1 }],
        dev: 1,
    };

    let d = scan_tree(&root, &t, None).unwrap();

    assert_eq!(d.get_total_bytes(), u64::MAX);
    assert_eq!(d.get_accessed_bytes(1), Some(u64::MAX));
}
