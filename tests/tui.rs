use rs_process_monitor::model::ProcessStatus;
use rs_process_monitor::process::{select_processes, summarize_processes, SortOrder};
use rs_process_monitor::tree::ProcessTreeNode;
use rs_process_monitor::tui::{KeyInput, TuiApp};

#[test]
fn update_after_full_interval() {
    let mut app = TuiApp::new(2, 10_000);
    assert!(!app.should_update(11_999));
    assert!(app.should_update(12_000));
    app.mark_updated(12_000);
    assert!(!app.should_update(13_000));
    assert!(!app.should_update(5_000));
}

#[test]
fn quit_keys() {
    let mut app = TuiApp::new(1, 0);
    app.handle_key(KeyInput::Char('x'));
    app.handle_key(KeyInput::Other);
    assert!(!app.should_quit());
    app.handle_key(KeyInput::Esc);
    assert!(app.should_quit());
    let mut other = TuiApp::new(1, 0);
    other.handle_key(KeyInput::Char('q'));
    assert!(other.should_quit());
}

fn proc_row(pid: u32, name: &str, cpu: u64, memory: u64) -> ProcessTreeNode {
    ProcessTreeNode {
        pid,
        parent_pid: None,
        process_name: name.to_string(),
        cpu_usage: cpu,
        memory_bytes: memory,
        thread_count: 1,
        status: ProcessStatus::Running,
        depth: 0,
        is_last_child: false,
    }
}

#[test]
fn listing_filters_and_sorts() {
    let rows = vec![
        proc_row(3, "chrome", 100, 3 << 20),
        proc_row(1, "chromium", 300, 1 << 20),
        proc_row(2, "bash", 200, 9 << 20),
        proc_row(4, "chrome", 50, 2 << 20),
    ];
    let by_mem: Vec<u32> = select_processes(&rows, "chrom", None, &SortOrder::Memory).iter().map(|p| p.pid).collect();
    assert_eq!(by_mem, vec![3, 4, 1]);
    let by_cpu: Vec<u32> = select_processes(&rows, "chrom", None, &SortOrder::Cpu).iter().map(|p| p.pid).collect();
    assert_eq!(by_cpu, vec![1, 3, 4]);
    let big: Vec<u32> = select_processes(&rows, "", Some(3), &SortOrder::Pid).iter().map(|p| p.pid).collect();
    assert_eq!(big, vec![2, 3]);
    let none = select_processes(&rows, "chrome", Some(u64::MAX), &SortOrder::Name);
    assert!(none.is_empty());
}

#[test]
fn listing_summary() {
    let rows = vec![proc_row(1, "a", 150, 10), proc_row(2, "b", 250, 25)];
    let s = summarize_processes(&rows);
    assert_eq!(s.count, 2);
    assert_eq!(s.total_memory, 35);
    assert_eq!(s.total_cpu, 400);
    assert_eq!(s.min_memory, 10);
    assert_eq!(s.avg_memory, 17);
    assert_eq!(s.max_memory, 25);
    let e = summarize_processes(&[]);
    assert_eq!((e.count, e.total_memory, e.max_memory), (0, 0, 0));
}
