use rs_process_monitor::graph::GraphData;
use rs_process_monitor::model::{ProcessSnapshot, ProcessStatus, Timestamp};

fn snap(secs: i64, name: &str, pid: u32, cpu: u64, memory: u64) -> ProcessSnapshot {
    ProcessSnapshot {
        timestamp: Timestamp::new(secs, 0, 0).unwrap(),
        process_name: name.to_string(),
        pid,
        cpu_usage: cpu,
        memory_bytes: memory,
        thread_count: 1,
        status: ProcessStatus::Running,
    }
}

#[test]
fn test_new_graph_data() {
    let graph = GraphData::new(60);
    assert_eq!(graph.len(), 0);
    assert_eq!(graph.get_max_memory(), 0);
    assert_eq!(graph.get_max_cpu(), 0);
}

#[test]
fn test_push_snapshot() {
    let mut graph = GraphData::new(3);
    let snapshot1 = snap(1_700_000_000, "test", 1234, 1050, 1024 * 1024);
    let snapshot2 = snap(1_700_000_000, "test2", 5678, 550, 2 * 1024 * 1024);
    graph.push_snapshot(&[snapshot1.clone(), snapshot2.clone()]);
    assert_eq!(graph.len(), 1);
    assert_eq!(graph.get_max_memory(), 3 * 1024 * 1024);
    assert_eq!(graph.get_max_cpu(), 1600);
}

#[test]
fn test_ring_buffer_behavior() {
    let mut graph = GraphData::new(2);
    let snapshot1 = snap(1_700_000_000, "test1", 1, 1000, 1024);
    let snapshot2 = snap(1_700_000_001, "test2", 2, 2000, 2048);
    let snapshot3 = snap(1_700_000_002, "test3", 3, 3000, 3072);
    graph.push_snapshot(&[snapshot1]);
    assert_eq!(graph.len(), 1);
    graph.push_snapshot(&[snapshot2]);
    assert_eq!(graph.len(), 2);
    graph.push_snapshot(&[snapshot3]);
    assert_eq!(graph.len(), 2);
    let memory_data = graph.get_memory_sparkline_data();
    assert_eq!(memory_data, vec![2048, 3072]);
}

#[test]
fn window_empty_push_changes_nothing() {
    let mut graph = GraphData::new(2);
    graph.push_snapshot(&[]);
    assert!(graph.is_empty());
}

#[test]
fn window_cpu_series_in_whole_percent() {
    let mut graph = GraphData::new(4);
    graph.push_snapshot(&[snap(1, "a", 1, 1050, 1), snap(1, "b", 2, 199, 1)]);
    graph.push_snapshot(&[snap(2, "a", 1, 99, 1)]);
    assert_eq!(graph.get_cpu_sparkline_data(), vec![12, 0]);
    assert_eq!(graph.get_max_cpu(), 1249);
}

#[test]
fn window_keeps_latest_capacity_entries() {
    let mut graph = GraphData::new(3);
    for k in 1..=5u64 {
        graph.push_snapshot(&[snap(k as i64, "p", 1, 0, k * 100)]);
    }
    assert_eq!(graph.get_memory_sparkline_data(), vec![300, 400, 500]);
    assert_eq!(graph.get_max_memory(), 500);
}
