use stor_age::Data;

fn filled(total_bytes: u64, total_files: u64, buckets: &[(u64, u64, u64, u64, u64)]) -> Data {
    let mut d = Data::default()
        .with_total_bytes(total_bytes)
        .with_total_files(total_files);

    for &(age, a_b, m_b, a_f, m_f) in buckets {
        d.insert(age, a_b, m_b, a_f, m_f);
    }

    d
}

fn assert_same(a: &Data, b: &Data) {
    assert_eq!(a.get_total_bytes(), b.get_total_bytes());
    assert_eq!(a.get_total_files(), b.get_total_files());
    assert_eq!(a.get_ages(), b.get_ages());

    for age in a.get_ages() {
        assert_eq!(a.get_accessed_bytes(age), b.get_accessed_bytes(age));
        assert_eq!(a.get_modified_bytes(age), b.get_modified_bytes(age));
        assert_eq!(a.get_accessed_files(age), b.get_accessed_files(age));
        assert_eq!(a.get_modified_files(age), b.get_modified_files(age));
    }
}

#[test]
fn default_is_zero() {
    let d = Data::default();

    assert_eq!(d.get_total_bytes(), 0);
    assert_eq!(d.get_total_files(), 0);
    assert_eq!(d.get_ages(), Vec::<u64>::new());
    assert_eq!(d.get_accessed_bytes(30), None);
}

#[test]
fn with_ages_seeds_zero_buckets() {
    let d = Data::default().with_ages(&[30, 1, 30]);

    assert_eq!(d.get_ages(), vec![1, 30]);
    assert_eq!(d.get_accessed_bytes(1), Some(0));
    assert_eq!(d.get_modified_bytes(30), Some(0));
    assert_eq!(d.get_accessed_files(30), Some(0));
    assert_eq!(d.get_modified_files(1), Some(0));
}

#[test]
fn insert_overwrites_equal_age() {
    let mut d = Data::default().with_ages(&[7]);
    d.insert(7, 10, 20, 1, 2);
    d.insert(7, 30, 40, 3, 4);

    assert_eq!(d.get_ages(), vec![7]);
    assert_eq!(d.get_accessed_bytes(7), Some(30));
    assert_eq!(d.get_modified_bytes(7), Some(40));
    assert_eq!(d.get_accessed_files(7), Some(3));
    assert_eq!(d.get_modified_files(7), Some(4));
}

#[test]
fn get_ages_sorted_whatever_the_insert_order() {
    let mut d = Data::default();
    d.insert(365, 0, 0, 0, 0);
    d.insert(1, 0, 0, 0, 0);
    d.insert(90, 0, 0, 0, 0);

    assert_eq!(d.get_ages(), vec![1, 90, 365]);
}

#[test]
fn merge_adds_totals_and_buckets() {
    let mut a = filled(100, 2, &[(1, 50, 40, 1, 1), (30, 100, 90, 2, 2)]);
    let b = filled(30, 1, &[(1, 10, 0, 1, 0), (30, 30, 30, 1, 1)]);

    a.merge(&b);

    assert_eq!(a.get_total_bytes(), 130);
    assert_eq!(a.get_total_files(), 3);
    assert_eq!(a.get_accessed_bytes(1), Some(60));
    assert_eq!(a.get_modified_bytes(1), Some(40));
    assert_eq!(a.get_accessed_bytes(30), Some(130));
    assert_eq!(a.get_modified_bytes(30), Some(120));
    assert_eq!(a.get_accessed_files(30), Some(3));
    assert_eq!(a.get_modified_files(30), Some(3));
}

#[test]
fn merge_unions_bucket_ages() {
    let mut a = filled(10, 1, &[(1, 10, 10, 1, 1)]);
    let b = filled(20, 1, &[(30, 20, 0, 1, 0)]);

    a.merge(&b);

    assert_eq!(a.get_ages(), vec![1, 30]);
    assert_eq!(a.get_accessed_bytes(1), Some(10));
    assert_eq!(a.get_accessed_bytes(30), Some(20));
}

#[test]
fn merge_commutes() {
    let a = filled(100, 2, &[(1, 50, 40, 1, 1), (30, 100, 90, 2, 2)]);
    let b = filled(30, 1, &[(30, 30, 30, 1, 1), (90, 5, 5, 1, 1)]);

    let mut ab = filled(100, 2, &[(1, 50, 40, 1, 1), (30, 100, 90, 2, 2)]);
    ab.merge(&b);

    let mut ba = filled(30, 1, &[(30, 30, 30, 1, 1), (90, 5, 5, 1, 1)]);
    ba.merge(&a);

    assert_same(&ab, &ba);
}

#[test]
fn merge_associates() {
    let a = filled(1, 1, &[(1, 1, 0, 1, 0)]);
    let b = filled(2, 1, &[(1, 2, 2, 1, 1)]);
    let c = filled(4, 1, &[(30, 4, 4, 1, 1)]);

    // (a + b) + c
    let mut left = filled(1, 1, &[(1, 1, 0, 1, 0)]);
    left.merge(&b);
    left.merge(&c);

    // a + (b + c)
    let mut bc = filled(2, 1, &[(1, 2, 2, 1, 1)]);
    bc.merge(&c);
    let mut right = filled(1, 1, &[(1, 1, 0, 1, 0)]);
    right.merge(&bc);

    assert_same(&left, &right);
}
