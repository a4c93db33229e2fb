use rs_process_monitor::formatter::{format_bytes, format_percent, format_status, truncate_string};
use rs_process_monitor::model::{ProcessStatus, Timestamp};

#[test]
fn bytes_below_one_kb() {
    assert_eq!(format_bytes(0), "0 B");
    assert_eq!(format_bytes(1023), "1023 B");
}

#[test]
fn bytes_in_larger_units() {
    assert_eq!(format_bytes(1024), "1.00 KB");
    assert_eq!(format_bytes(1536), "1.50 KB");
    assert_eq!(format_bytes(3 * 1024 * 1024), "3.00 MB");
    assert_eq!(format_bytes(5 * 1024 * 1024 * 1024 / 2), "2.50 GB");
    assert_eq!(format_bytes(1_000_000), "976.56 KB");
}

#[test]
fn bytes_round_like_float_formatting() {
    for b in [1025u64, 1029, 5000, 123_456, 9_999_999, 7_000_000_000, 1 << 40] {
        let expected = if b >= 1 << 30 {
            format!("{:.2} GB", b as f64 / (1u64 << 30) as f64)
        } else if b >= 1 << 20 {
            format!("{:.2} MB", b as f64 / (1u64 << 20) as f64)
        } else {
            format!("{:.2} KB", b as f64 / 1024.0)
        };
        assert_eq!(format_bytes(b), expected);
    }
}

#[test]
fn percent_text() {
    assert_eq!(format_percent(1050), "10.50%");
    assert_eq!(format_percent(7), "0.07%");
}

#[test]
fn status_text() {
    assert_eq!(format_status(ProcessStatus::Running), "Run");
    assert_eq!(format_status(ProcessStatus::Zombie), "Zombie");
    assert_eq!(format_status(ProcessStatus::Unknown), "Unknown");
}

#[test]
fn truncation() {
    assert_eq!(truncate_string("short", 10), "short");
    assert_eq!(truncate_string("exactly10!", 10), "exactly10!");
    assert_eq!(truncate_string("a-very-long-process-name", 10), "a-very-...");
    assert_eq!(truncate_string("ééééé", 6), "é...");
}

#[test]
fn timestamp_text_and_parse() {
    let t = Timestamp::new(1_767_589_200, 0, 32400).unwrap();
    assert_eq!(t.to_rfc3339(), "2026-01-05T14:00:00+09:00");
    assert_eq!(Timestamp::parse_rfc3339("2026-01-05T14:00:00+09:00"), Some(t));
    let u = Timestamp::parse_rfc3339("2026-01-05T05:00:00.5Z").unwrap();
    assert_eq!((u.secs(), u.nanos(), u.offset_secs()), (1_767_589_200, 500_000_000, 0));
    assert_eq!(Timestamp::parse_rfc3339("garbage"), None);
    assert_eq!(Timestamp::new(0, 1_000_000_000, 0), None);
    assert_eq!(Timestamp::new(0, 0, 86400), None);
}
