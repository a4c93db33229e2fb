use rs_process_monitor::analyze::{analyze_records, AnalysisResult, AnalyzeError};
use rs_process_monitor::model::{ProcessSnapshot, ProcessStatus, Timestamp};

fn snap(secs: i64, pid: u32, cpu: u64, memory: u64) -> ProcessSnapshot {
    ProcessSnapshot {
        timestamp: Timestamp::new(secs, 0, 0).unwrap(),
        process_name: format!("p{}", pid),
        pid,
        cpu_usage: cpu,
        memory_bytes: memory,
        thread_count: 1,
        status: ProcessStatus::Running,
    }
}

#[test]
fn stats_of_one_five_three() {
    let s = vec![snap(100, 1, 10, 1), snap(100, 2, 30, 5), snap(101, 3, 20, 3)];
    let a = AnalysisResult::from_snapshots(&s).ok().unwrap();
    assert_eq!(a.memory_stats.min_bytes, 1);
    assert_eq!(a.memory_stats.max_bytes, 5);
    assert_eq!(a.memory_stats.total_bytes as f64 / a.total_records as f64, 3.0);
    assert_eq!(a.peak_details[0].metric, "Memory");
    assert_eq!(a.peak_details[0].value, "5 B");
    assert_eq!(a.peak_details[0].pid, 2);
    assert_eq!(a.peak_details[1].metric, "CPU");
    assert_eq!(a.peak_details[1].value, "0.30%");
    assert_eq!(a.cpu_stats.min_percent, 10);
    assert_eq!(a.cpu_stats.max_percent, 30);
    assert_eq!(a.cpu_stats.total_percent, 60);
    assert_eq!(a.time_range.from, "1970-01-01T00:01:40+00:00");
    assert_eq!(a.time_range.to, "1970-01-01T00:01:41+00:00");
}

#[test]
fn stats_count_distinct_processes_per_instant() {
    let s = vec![
        snap(100, 1, 0, 1),
        snap(100, 2, 0, 1),
        snap(100, 2, 0, 1),
        snap(101, 1, 0, 1),
        snap(102, 1, 0, 1),
        snap(102, 2, 0, 1),
        snap(102, 3, 0, 1),
    ];
    let a = AnalysisResult::from_snapshots(&s).ok().unwrap();
    assert_eq!(a.process_count.ticks, 3);
    assert_eq!(a.process_count.min, 1);
    assert_eq!(a.process_count.max, 3);
    assert_eq!(a.process_count.total, 6);
    assert_eq!(a.total_records, 7);
}

#[test]
fn stats_peak_ties_go_to_first_record() {
    let s = vec![snap(1, 7, 500, 9), snap(2, 8, 500, 9)];
    let a = AnalysisResult::from_snapshots(&s).ok().unwrap();
    assert_eq!(a.peak_details[0].pid, 7);
    assert_eq!(a.peak_details[1].pid, 7);
}

#[test]
fn stats_refuse_empty_input() {
    assert_eq!(AnalysisResult::from_snapshots(&[]).err(), Some(AnalyzeError::EmptyInput));
    assert_eq!(analyze_records(&[]).err(), Some(AnalyzeError::NoMatchingRecords));
}
