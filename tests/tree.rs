use rs_process_monitor::model::ProcessStatus;
use rs_process_monitor::process::SortOrder;
use rs_process_monitor::tree::{
    build_process_tree, create_tree_node, create_tree_nodes, generate_tree_prefix, row_prefix, ProcessTreeNode,
    ThreadRecord, TREE_BRANCH, TREE_LAST,
};

fn node(pid: u32, parent: Option<u32>, name: &str, memory: u64) -> ProcessTreeNode {
    ProcessTreeNode {
        pid,
        parent_pid: parent,
        process_name: name.to_string(),
        cpu_usage: 0,
        memory_bytes: memory,
        thread_count: 1,
        status: ProcessStatus::Running,
        depth: 0,
        is_last_child: false,
    }
}

fn thread(tid: u32, gid: u32, parent: Option<u32>, name: &str) -> ThreadRecord {
    ThreadRecord {
        thread_id: tid,
        group_id: gid,
        parent_group_id: parent,
        name: name.to_string(),
        cpu_usage: 150,
        memory_bytes: 4096,
        status: ProcessStatus::Sleeping,
        group_thread_count: 3,
    }
}

fn layout(r: &[ProcessTreeNode]) -> Vec<(u32, usize, bool)> {
    r.iter().map(|n| (n.pid, n.depth, n.is_last_child)).collect()
}

#[test]
fn test_generate_tree_prefix_root() {
    assert_eq!(generate_tree_prefix(0, true, &[]), "");
    assert_eq!(generate_tree_prefix(0, false, &[]), "");
}

#[test]
fn test_generate_tree_prefix_first_level() {
    assert_eq!(generate_tree_prefix(1, false, &[true]), "├─ ");
    assert_eq!(generate_tree_prefix(1, true, &[false]), "└─ ");
}

#[test]
fn test_generate_tree_prefix_second_level() {
    assert_eq!(generate_tree_prefix(2, true, &[true, false]), "│  └─ ");
    assert_eq!(generate_tree_prefix(2, false, &[false, true]), "   ├─ ");
}

#[test]
fn prefix_connectors_match_constants() {
    assert_eq!(generate_tree_prefix(1, false, &[]), TREE_BRANCH);
    assert_eq!(generate_tree_prefix(1, true, &[]), TREE_LAST);
    assert_eq!(generate_tree_prefix(3, true, &[true, true, true]), "│  │  └─ ");
}

#[test]
fn tree_empty_input() {
    assert!(build_process_tree(&[], &SortOrder::Pid).is_empty());
}

#[test]
fn tree_parent_before_children_with_depths() {
    let nodes = vec![
        node(30, Some(10), "c", 1),
        node(10, None, "a", 1),
        node(20, Some(10), "b", 1),
        node(40, Some(20), "d", 1),
    ];
    let r = build_process_tree(&nodes, &SortOrder::Pid);
    assert_eq!(
        layout(&r),
        vec![(10, 0, true), (20, 1, false), (40, 2, true), (30, 1, true)]
    );
}

#[test]
fn tree_orphan_and_self_parent_are_roots() {
    let nodes = vec![
        node(5, Some(999), "orphan", 1),
        node(6, Some(6), "selfish", 1),
        node(7, Some(5), "child", 1),
    ];
    let r = build_process_tree(&nodes, &SortOrder::Pid);
    assert_eq!(layout(&r), vec![(5, 0, false), (7, 1, true), (6, 0, true)]);
}

#[test]
fn tree_siblings_by_memory_descending_stable() {
    let nodes = vec![
        node(1, None, "root", 10),
        node(2, Some(1), "small", 5),
        node(3, Some(1), "big", 50),
        node(4, Some(1), "also_small", 5),
    ];
    let r = build_process_tree(&nodes, &SortOrder::Memory);
    assert_eq!(layout(&r), vec![(1, 0, true), (3, 1, false), (2, 1, false), (4, 1, true)]);
}

#[test]
fn tree_siblings_by_name() {
    let nodes = vec![node(1, None, "zsh", 1), node(2, None, "bash", 1), node(3, None, "csh", 1)];
    let r = build_process_tree(&nodes, &SortOrder::Name);
    assert_eq!(layout(&r), vec![(2, 0, false), (3, 0, false), (1, 0, true)]);
}

#[test]
fn tree_mutual_cycle_not_emitted() {
    let nodes = vec![node(1, Some(2), "a", 1), node(2, Some(1), "b", 1), node(3, None, "c", 1)];
    let r = build_process_tree(&nodes, &SortOrder::Pid);
    assert_eq!(layout(&r), vec![(3, 0, true)]);
}

#[test]
fn create_node_uses_group_ids() {
    let n = create_tree_node(&thread(101, 100, Some(1), "worker"));
    assert_eq!(n.pid, 100);
    assert_eq!(n.parent_pid, Some(1));
    assert_eq!(n.process_name, "worker");
    assert_eq!(n.thread_count, 3);
    assert_eq!(n.cpu_usage, 150);
    assert_eq!(n.depth, 0);
    assert!(!n.is_last_child);
}

#[test]
fn grouping_one_record_per_group_prefers_main_thread() {
    let records = vec![
        thread(101, 100, Some(7), "from_thread"),
        thread(100, 100, Some(1), "main"),
        thread(201, 200, Some(1), "first"),
        thread(202, 200, Some(9), "second"),
        thread(300, 300, None, "single"),
    ];
    let mut r = create_tree_nodes(&records);
    r.sort_by_key(|n| n.pid);
    let got: Vec<(u32, Option<u32>, String)> =
        r.iter().map(|n| (n.pid, n.parent_pid, n.process_name.clone())).collect();
    assert_eq!(
        got,
        vec![
            (100, Some(1), "main".to_string()),
            (200, Some(1), "first".to_string()),
            (300, None, "single".to_string()),
        ]
    );
}

#[test]
fn grouping_empty_input() {
    assert!(create_tree_nodes(&[]).is_empty());
}

#[test]
fn tree_keeps_one_record_per_id() {
    let nodes = vec![
        node(1, None, "first_one", 1),
        node(1, Some(5), "second_one", 1),
        node(5, None, "five", 1),
        node(2, Some(1), "two", 1),
    ];
    let r = build_process_tree(&nodes, &SortOrder::Pid);
    assert_eq!(layout(&r), vec![(5, 0, true), (1, 1, true), (2, 2, true)]);
    assert_eq!(r[1].process_name, "second_one");
}

#[test]
fn tree_equal_keys_keep_input_order() {
    let nodes = vec![node(9, None, "a", 7), node(3, None, "b", 7), node(4, None, "c", 8)];
    let r = build_process_tree(&nodes, &SortOrder::Memory);
    assert_eq!(layout(&r), vec![(4, 0, false), (9, 0, false), (3, 0, true)]);
}

#[test]
fn row_prefixes_follow_tree() {
    let nodes = vec![
        node(1, None, "a", 1),
        node(2, Some(1), "b", 1),
        node(3, Some(2), "c", 1),
        node(4, Some(1), "d", 1),
        node(5, Some(4), "e", 1),
    ];
    let r = build_process_tree(&nodes, &SortOrder::Pid);
    let p: Vec<String> = (0..r.len()).map(|k| row_prefix(&r, k)).collect();
    assert_eq!(p, vec!["", "├─ ", "│  └─ ", "└─ ", "   └─ "]);
}
