use rs_process_monitor::analyze::{run_analyze, AnalyzeError};
use rs_process_monitor::history::{
    insert_args, select_snapshots, HistoryError, ProcessHistory, SqlArg, StoredRow,
};
use rs_process_monitor::model::{ProcessSnapshot, ProcessStatus, Timestamp};

const BASE: i64 = 1_767_589_200;

fn snap(secs: i64, name: &str, pid: u32, memory: u64) -> ProcessSnapshot {
    ProcessSnapshot {
        timestamp: Timestamp::new(secs, 0, 32400).unwrap(),
        process_name: name.to_string(),
        pid,
        cpu_usage: 1234,
        memory_bytes: memory,
        thread_count: 4,
        status: ProcessStatus::Sleeping,
    }
}

fn row(ts: &str, name: &str, pid: i64, memory: i64) -> StoredRow {
    StoredRow {
        timestamp: ts.to_string(),
        process_name: name.to_string(),
        pid,
        cpu_usage: 50,
        memory_bytes: memory,
        thread_count: 2,
        status: "Run".to_string(),
    }
}

fn pids(v: &[ProcessSnapshot]) -> Vec<u32> {
    v.iter().map(|s| s.pid).collect()
}

#[test]
fn empty_batch_is_a_no_op() {
    let mut h = ProcessHistory::new(":memory:").unwrap();
    h.insert_snapshots(&[snap(BASE, "a", 1, 10)]).unwrap();
    let before = pids(&h.query_snapshots(None, None, None).unwrap());
    assert_eq!(h.insert_snapshots(&[]), Ok(()));
    let after = pids(&h.query_snapshots(None, None, None).unwrap());
    assert_eq!(before, after);
}

#[test]
fn query_returns_batch_in_time_order() {
    let mut h = ProcessHistory::new(":memory:").unwrap();
    let batch = vec![snap(BASE + 20, "c", 3, 1), snap(BASE, "a", 1, 1), snap(BASE + 10, "b", 2, 1)];
    h.insert_snapshots(&batch).unwrap();
    let got = h.query_snapshots(None, None, None).unwrap();
    assert_eq!(pids(&got), vec![1, 2, 3]);
}

#[test]
fn stored_snapshot_round_trips() {
    let mut h = ProcessHistory::new(":memory:").unwrap();
    let mut s = snap(BASE, "postgres", 4242, 123_456_789);
    s.timestamp = Timestamp::new(BASE, 123_456_789, 32400).unwrap();
    s.status = ProcessStatus::Zombie;
    s.cpu_usage = 10_050;
    h.insert_snapshots(&[s.clone()]).unwrap();
    let from = "2026-01-05T14:00:00+09:00";
    let to = "2026-01-05T14:00:01+09:00";
    let got = h.query_snapshots(Some(from), Some(to), Some("gres")).unwrap();
    assert_eq!(got.len(), 1);
    let g = &got[0];
    assert_eq!(g.timestamp, s.timestamp);
    assert_eq!(g.process_name, s.process_name);
    assert_eq!(g.pid, s.pid);
    assert_eq!(g.cpu_usage, s.cpu_usage);
    assert_eq!(g.memory_bytes, s.memory_bytes);
    assert_eq!(g.thread_count, s.thread_count);
    assert_eq!(g.status, s.status);
}

#[test]
fn query_matching_nothing_is_empty() {
    let mut h = ProcessHistory::new(":memory:").unwrap();
    h.insert_snapshots(&[snap(BASE, "bash", 1, 1)]).unwrap();
    let got = h.query_snapshots(None, None, Some("nginx")).unwrap();
    assert!(got.is_empty());
    let later = h.query_snapshots(Some("2030-01-01T00:00:00Z"), None, None).unwrap();
    assert!(later.is_empty());
}

#[test]
fn query_bounds_are_inclusive() {
    let mut h = ProcessHistory::new(":memory:").unwrap();
    h.insert_snapshots(&[snap(BASE, "a", 1, 1), snap(BASE + 60, "a", 2, 1), snap(BASE + 120, "a", 3, 1)])
        .unwrap();
    let got = h
        .query_snapshots(Some("2026-01-05T14:01:00+09:00"), Some("2026-01-05T05:02:00Z"), None)
        .unwrap();
    assert_eq!(pids(&got), vec![2, 3]);
}

#[test]
fn query_rejects_bad_time_filter() {
    let h = ProcessHistory::new(":memory:").unwrap();
    assert_eq!(
        h.query_snapshots(Some("yesterday"), None, None).err(),
        Some(HistoryError::InvalidTimestamp)
    );
    assert_eq!(
        h.query_snapshots(None, Some("2026-13-01T00:00:00Z"), None).err(),
        Some(HistoryError::InvalidTimestamp)
    );
}

#[test]
fn insert_rejects_values_beyond_columns() {
    let mut h = ProcessHistory::new(":memory:").unwrap();
    let big = snap(BASE, "a", 1, u64::MAX);
    assert_eq!(h.insert_snapshots(&[big]), Err(HistoryError::ValueOutOfRange));
    assert!(h.query_snapshots(None, None, None).unwrap().is_empty());
}

#[test]
fn open_fails_on_unusable_path() {
    let r = ProcessHistory::new("/nonexistent-dir-for-history/db.sqlite");
    assert_eq!(r.err(), Some(HistoryError::StorageUnavailable));
}

#[test]
fn select_sorts_and_filters_rows() {
    let rows = vec![
        row("2026-01-05T05:00:02Z", "nginx", 2, 10),
        row("2026-01-05T05:00:01Z", "bash", 1, 10),
        row("2026-01-05T14:00:01+09:00", "nginx", 3, 10),
    ];
    let all = select_snapshots(&rows, None, None, None).unwrap();
    assert_eq!(pids(&all), vec![1, 3, 2]);
    let named = select_snapshots(&rows, None, None, Some("gin")).unwrap();
    assert_eq!(pids(&named), vec![3, 2]);
    assert_eq!(named[0].status, ProcessStatus::Running);
}

#[test]
fn select_reports_malformed_rows() {
    let bad_time = vec![row("not a time", "a", 1, 1)];
    assert_eq!(select_snapshots(&bad_time, None, None, None).err(), Some(HistoryError::QueryError));
    let bad_memory = vec![row("2026-01-05T05:00:00Z", "a", 1, -5)];
    assert_eq!(select_snapshots(&bad_memory, None, None, None).err(), Some(HistoryError::QueryError));
}

#[test]
fn analyze_empty_store_reports_no_records() {
    let r = run_analyze(":memory:", None, None, None);
    assert_eq!(r.err(), Some(AnalyzeError::NoMatchingRecords));
}

#[test]
fn analyze_rejects_bad_time_filter() {
    let r = run_analyze(":memory:", None, Some("05/01/2026"), None);
    assert_eq!(r.err(), Some(AnalyzeError::InvalidTimestamp));
}

#[test]
fn insert_args_bind_each_column() {
    let s = snap(BASE, "nginx", 77, 4096);
    let args = insert_args(&s);
    assert_eq!(args.len(), 7);
    let texts: Vec<String> = args
        .iter()
        .map(|a| match a {
            SqlArg::Text(t) => t.clone(),
            SqlArg::Int(v) => v.to_string(),
        })
        .collect();
    assert_eq!(
        texts,
        vec!["2026-01-05T14:00:00+09:00", "nginx", "77", "1234", "4096", "4", "Sleep"]
    );
}
