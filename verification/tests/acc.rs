use stor_age::Acc;
use stor_age::Config;
use stor_age::Error;
use stor_age::ErrorKind;
use stor_age::Output;

#[test]
fn acc_starts_at_zero() {
    let a = Acc::new();

    assert_eq!(a.get_total_bytes(), 0);
    assert_eq!(a.get_ages(), Vec::<u64>::new());
    assert_eq!(a.get_accessed_bytes(90), None);
    assert_eq!(a.get_modified_bytes(90), None);
}

#[test]
fn acc_with_total_keeps_buckets() {
    let mut a = Acc::new();
    a.insert(90, 10, 20);
    let a = a.with_total(500);

    assert_eq!(a.get_total_bytes(), 500);
    assert_eq!(a.get_accessed_bytes(90), Some(10));
    assert_eq!(a.get_modified_bytes(90), Some(20));
}

#[test]
fn acc_insert_overwrites_equal_age() {
    let mut a = Acc::new();
    a.insert(7, 1, 2);
    a.insert(7, 3, 4);

    assert_eq!(a.get_ages(), vec![7]);
    assert_eq!(a.get_accessed_bytes(7), Some(3));
    assert_eq!(a.get_modified_bytes(7), Some(4));
}

#[test]
fn acc_ages_come_out_sorted() {
    let mut a = Acc::new();
    a.insert(365, 0, 0);
    a.insert(1, 0, 0);
    a.insert(90, 0, 0);

    assert_eq!(a.get_ages(), vec![1, 90, 365]);
}

#[test]
fn output_names() {
    assert_eq!(Output::Oneline.name(), "oneline");
    assert_eq!(Output::Prometheus.name(), "prometheus");
    assert_eq!(Output::Table.name(), "table");
}

#[test]
fn error_carries_message_and_kind() {
    let e = Error::new("mmapplypolicy was no success", ErrorKind::ToolExecution);

    assert_eq!(e.message, "mmapplypolicy was no success");
    assert_eq!(e.kind, ErrorKind::ToolExecution);
    assert_ne!(e.kind, ErrorKind::Io);
}

#[test]
fn config_carries_the_settings() {
    let c = Config {
        debug: false,
        progress: true,
        ages_in_days: vec![90, 365],
        output: Output::Oneline,
        one_file_system: true,
        spectrum_scale: false,
        spectrum_scale_nodes: None,
        spectrum_scale_global_work_dir: None,
        spectrum_scale_local_work_dir: Some(String::from("/tmp")),
    };

    assert_eq!(c.ages_in_days, vec![90, 365]);
    assert!(c.one_file_system);
    assert_eq!(c.output.name(), "oneline");
}
