//! Grouping of thread records into processes and reconstruction of the
//! parent/child forest in depth-first display order.

use vstd::prelude::*;
use crate::model::ProcessStatus;
use crate::process::SortOrder;
use crate::text::{chars_less, chars_of, seq_less};

verus! {

/// Connector drawn before a child that has later siblings.
pub const TREE_BRANCH: &'static str = "├─ ";

/// Connector drawn before the last child of its parent.
pub const TREE_LAST: &'static str = "└─ ";

/// Filler for an ancestor level whose subtree continues below.
pub const TREE_VERTICAL: &'static str = "│  ";

/// Filler for an ancestor level whose subtree has ended.
pub const TREE_SPACE: &'static str = "   ";

/// One process placed in the display tree.
///
/// `cpu_usage` is in hundredths of a percent (1050 is 10.50 %).
#[derive(Clone, Debug)]
pub struct ProcessTreeNode {
    pub pid: u32,
    pub parent_pid: Option<u32>,
    pub process_name: String,
    pub cpu_usage: u64,
    pub memory_bytes: u64,
    pub thread_count: usize,
    pub status: ProcessStatus,
    pub depth: usize,
    pub is_last_child: bool,
}

/// `n` with its tree position set.
pub open spec fn placed(n: ProcessTreeNode, depth: int, last: bool) -> ProcessTreeNode {
    ProcessTreeNode { depth: depth as usize, is_last_child: last, ..n }
}

impl ProcessTreeNode {
    pub(crate) fn placed_at(&self, depth: usize, last: bool) -> (r: ProcessTreeNode)
        ensures
            r == placed(*self, depth as int, last),
    {
        ProcessTreeNode {
            pid: self.pid,
            parent_pid: self.parent_pid,
            process_name: self.process_name.clone(),
            cpu_usage: self.cpu_usage,
            memory_bytes: self.memory_bytes,
            thread_count: self.thread_count,
            status: self.status,
            depth,
            is_last_child: last,
        }
    }
}

/// One thread as reported by the process inspector.
///
/// `group_id` is the id of the process the thread belongs to, and
/// `parent_group_id` that of its parent process. `cpu_usage` (hundredths of
/// a percent) and `memory_bytes` are whole-process values, and
/// `group_thread_count` is the accurate thread count of the whole group.
#[derive(Clone, Debug)]
pub struct ThreadRecord {
    pub thread_id: u32,
    pub group_id: u32,
    pub parent_group_id: Option<u32>,
    pub name: String,
    pub cpu_usage: u64,
    pub memory_bytes: u64,
    pub status: ProcessStatus,
    pub group_thread_count: usize,
}

/// The process record that thread record `t` stands for, at the top level.
pub open spec fn node_of(t: ThreadRecord) -> ProcessTreeNode {
    ProcessTreeNode {
        pid: t.group_id,
        parent_pid: t.parent_group_id,
        process_name: t.name,
        cpu_usage: t.cpu_usage,
        memory_bytes: t.memory_bytes,
        thread_count: t.group_thread_count,
        status: t.status,
        depth: 0,
        is_last_child: false,
    }
}

/// The thread is its process's main thread.
pub open spec fn is_main_thread(t: ThreadRecord) -> bool {
    t.thread_id == t.group_id
}

/// Record `i` represents its group as far as the records below `m` show: it
/// is the group's first main-thread record, or, the group having no main
/// thread below `m`, the group's first record.
pub open spec fn chosen_upto(records: Seq<ThreadRecord>, i: int, m: int) -> bool {
    let g = records[i].group_id;
    if is_main_thread(records[i]) {
        forall|k: int|
            0 <= k < i && #[trigger] records[k].group_id == g ==> !is_main_thread(records[k])
    } else {
        &&& forall|k: int| 0 <= k < i ==> #[trigger] records[k].group_id != g
        &&& forall|k: int|
            0 <= k < m && #[trigger] records[k].group_id == g ==> !is_main_thread(records[k])
    }
}

/// Record `i` is the representative of its group: the first main-thread
/// record of the group, or the group's first record if it has no main thread.
pub open spec fn is_representative(records: Seq<ThreadRecord>, i: int) -> bool {
    chosen_upto(records, i, records.len() as int)
}

proof fn lemma_chosen_other(records: Seq<ThreadRecord>, r: int, i: int)
    requires
        0 <= r < i < records.len(),
        chosen_upto(records, r, i),
        records[i].group_id != records[r].group_id,
    ensures
        chosen_upto(records, r, i + 1),
{
    reveal(chosen_upto);
}

proof fn lemma_chosen_keep(records: Seq<ThreadRecord>, r: int, i: int)
    requires
        0 <= r < i < records.len(),
        chosen_upto(records, r, i),
        records[i].group_id == records[r].group_id,
        !(is_main_thread(records[i]) && !is_main_thread(records[r])),
    ensures
        chosen_upto(records, r, i + 1),
{
    reveal(chosen_upto);
}

proof fn lemma_chosen_replace(records: Seq<ThreadRecord>, r: int, i: int)
    requires
        0 <= r < i < records.len(),
        chosen_upto(records, r, i),
        records[i].group_id == records[r].group_id,
        is_main_thread(records[i]),
        !is_main_thread(records[r]),
    ensures
        chosen_upto(records, i, i + 1),
{
    reveal(chosen_upto);
}

proof fn lemma_chosen_new(records: Seq<ThreadRecord>, i: int)
    requires
        0 <= i < records.len(),
        forall|k: int| 0 <= k < i ==> #[trigger] records[k].group_id != records[i].group_id,
    ensures
        chosen_upto(records, i, i + 1),
{
    reveal(chosen_upto);
}

/// The process record for one thread record, placed at the top level.
pub fn create_tree_node(record: &ThreadRecord) -> (r: ProcessTreeNode)
    ensures
        r == node_of(*record),
{
    ProcessTreeNode {
        pid: record.group_id,
        parent_pid: record.parent_group_id,
        process_name: record.name.clone(),
        cpu_usage: record.cpu_usage,
        memory_bytes: record.memory_bytes,
        thread_count: record.group_thread_count,
        status: record.status,
        depth: 0,
        is_last_child: false,
    }
}

/// Some entry of `nodes` carries the id `pid`.
pub open spec fn lists_pid(nodes: Seq<ProcessTreeNode>, pid: u32) -> bool {
    exists|j: int| 0 <= j < nodes.len() && #[trigger] nodes[j].pid == pid
}

/// `reps` holds one representative per group among the records below `i`,
/// as far as those records show.
#[verifier::opaque]
spec fn reps_ok(records: Seq<ThreadRecord>, reps: Seq<usize>, i: int) -> bool {
    &&& forall|q: int|
        0 <= q < reps.len() ==> #[trigger] reps[q] < i && chosen_upto(records, reps[q] as int, i)
    &&& forall|a: int, b: int|
        0 <= a < b < reps.len() ==> records[reps[a] as int].group_id != records[reps[b] as int].group_id
    &&& forall|k: int| 0 <= k < i ==> #[trigger] covered(records, reps, k)
}

/// Some entry of `reps` is in the same group as record `k`.
spec fn covered(records: Seq<ThreadRecord>, reps: Seq<usize>, k: int) -> bool {
    exists|q: int|
        0 <= q < reps.len() && records[#[trigger] reps[q] as int].group_id == records[k].group_id
}

/// `reps` after looking at record `i`, whose group's entry (if any) is at `j`.
spec fn reps_next(records: Seq<ThreadRecord>, reps: Seq<usize>, i: int, j: int) -> Seq<usize> {
    if j == reps.len() {
        reps.push(i as usize)
    } else if is_main_thread(records[i]) && !is_main_thread(records[reps[j] as int]) {
        reps.update(j, i as usize)
    } else {
        reps
    }
}

proof fn lemma_reps_start(records: Seq<ThreadRecord>)
    ensures
        reps_ok(records, Seq::empty(), 0),
{
    reveal(reps_ok);
}

proof fn lemma_reps_below(records: Seq<ThreadRecord>, reps: Seq<usize>, i: int)
    requires
        reps_ok(records, reps, i),
    ensures
        forall|q: int|
            0 <= q < reps.len() ==> #[trigger] reps[q] < i && chosen_upto(records, reps[q] as int, i),
{
    reveal(reps_ok);
}

proof fn lemma_reps_final(records: Seq<ThreadRecord>, reps: Seq<usize>, i: int)
    requires
        reps_ok(records, reps, i),
    ensures
        forall|k: int| 0 <= k < i ==> #[trigger] covered(records, reps, k),
        forall|a: int, b: int|
            0 <= a < b < reps.len() ==> records[reps[a] as int].group_id != records[reps[b] as int].group_id,
{
    reveal(reps_ok);
}

#[verifier::rlimit(50)]
proof fn lemma_reps_step(records: Seq<ThreadRecord>, reps: Seq<usize>, i: int, j: int)
    requires
        0 <= i < records.len() <= usize::MAX,
        reps_ok(records, reps, i),
        0 <= j <= reps.len(),
        forall|q: int|
            0 <= q < j ==> records[#[trigger] reps[q] as int].group_id != records[i].group_id,
        j < reps.len() ==> records[reps[j] as int].group_id == records[i].group_id,
    ensures
        reps_ok(records, reps_next(records, reps, i, j), i + 1),
{
    reveal(reps_ok);
    let g = records[i].group_id;
    let next = reps_next(records, reps, i, j);
    if j == reps.len() {
        assert forall|k: int| 0 <= k < i implies #[trigger] records[k].group_id != g by {
            assert(covered(records, reps, k));
            let q = choose|q: int|
                0 <= q < reps.len() && records[#[trigger] reps[q] as int].group_id
                    == records[k].group_id;
        }
        lemma_chosen_new(records, i);
        assert forall|q: int| 0 <= q < reps.len() implies chosen_upto(
            records,
            #[trigger] reps[q] as int,
            i + 1,
        ) by {
            lemma_chosen_other(records, reps[q] as int, i);
        }
    } else {
        let r = reps[j] as int;
        if is_main_thread(records[i]) && !is_main_thread(records[r]) {
            lemma_chosen_replace(records, r, i);
        } else {
            lemma_chosen_keep(records, r, i);
        }
        assert forall|q: int| 0 <= q < reps.len() && q != j implies chosen_upto(
            records,
            #[trigger] reps[q] as int,
            i + 1,
        ) by {
            if q < j {
                assert(records[reps[q] as int].group_id != records[reps[j] as int].group_id);
            } else {
                assert(records[reps[j] as int].group_id != records[reps[q] as int].group_id);
            }
            lemma_chosen_other(records, reps[q] as int, i);
        }
    }
    assert forall|q: int| 0 <= q < next.len() implies #[trigger] next[q] < i + 1 && chosen_upto(
        records,
        next[q] as int,
        i + 1,
    ) by {
        if q < reps.len() && q != j {
            assert(next[q] == reps[q]);
        }
    }
    assert forall|k: int| 0 <= k < i + 1 implies #[trigger] covered(records, next, k) by {
        if k < i {
            assert(covered(records, reps, k));
            let q = choose|q: int|
                0 <= q < reps.len() && records[#[trigger] reps[q] as int].group_id
                    == records[k].group_id;
            if q == j {
                assert(records[next[j] as int].group_id == records[k].group_id);
            } else {
                assert(next[q] == reps[q]);
                assert(records[next[q] as int].group_id == records[k].group_id);
            }
        } else if j < reps.len() {
            assert(records[next[j] as int].group_id == records[k].group_id);
        } else {
            assert(next[reps.len() as int] == i);
            assert(records[next[reps.len() as int] as int].group_id == records[k].group_id);
        }
    }
    assert forall|a: int, b: int| 0 <= a < b < next.len() implies records[next[a] as int].group_id
        != records[next[b] as int].group_id by {
        if j == reps.len() {
            if b == reps.len() {
                assert(next[a] == reps[a]);
                assert(records[reps[a] as int].group_id != g);
            } else {
                assert(next[a] == reps[a] && next[b] == reps[b]);
            }
        } else {
            if a == j {
                assert(records[next[a] as int].group_id == records[reps[j] as int].group_id);
                assert(next[b] == reps[b]);
            } else if b == j {
                assert(records[next[b] as int].group_id == records[reps[j] as int].group_id);
                assert(next[a] == reps[a]);
            } else {
                assert(next[a] == reps[a] && next[b] == reps[b]);
            }
        }
    }
}

proof fn lemma_nodes_from_reps(
    records: Seq<ThreadRecord>,
    reps: Seq<usize>,
    out: Seq<ProcessTreeNode>,
)
    requires
        reps_ok(records, reps, records.len() as int),
        out.len() == reps.len(),
        forall|q: int| 0 <= q < reps.len() ==> #[trigger] out[q] == node_of(records[reps[q] as int]),
    ensures
        forall|k: int| 0 <= k < records.len() ==> #[trigger] lists_pid(out, records[k].group_id),
        forall|j: int|
            #![trigger out[j]]
            0 <= j < out.len() ==> exists|k: int|
                0 <= k < records.len() && is_representative(records, k) && out[j] == node_of(
                    #[trigger] records[k],
                ),
        forall|a: int, b: int| 0 <= a < b < out.len() ==> out[a].pid != out[b].pid,
{
    lemma_reps_final(records, reps, records.len() as int);
    lemma_reps_below(records, reps, records.len() as int);
    assert forall|k: int| 0 <= k < records.len() implies #[trigger] lists_pid(
        out,
        records[k].group_id,
    ) by {
        assert(covered(records, reps, k));
        let q = choose|q: int|
            0 <= q < reps.len() && records[#[trigger] reps[q] as int].group_id == records[k].group_id;
        assert(out[q].pid == records[k].group_id);
    }
    assert forall|q: int|
        #![trigger out[q]]
        0 <= q < out.len() implies exists|k: int|
            0 <= k < records.len() && is_representative(records, k) && out[q] == node_of(
                #[trigger] records[k],
            ) by {
        assert(out[q] == node_of(records[reps[q] as int]));
        assert(is_representative(records, reps[q] as int));
    }
    assert forall|a: int, b: int| 0 <= a < b < out.len() implies out[a].pid != out[b].pid by {
        assert(out[a] == node_of(records[reps[a] as int]));
        assert(out[b] == node_of(records[reps[b] as int]));
    }
}

/// Collapses thread records into one process record per distinct group id.
///
/// Each group is represented by its first main-thread record (the one whose
/// thread id equals the group id), or by its first record if none is the
/// main thread. The order of the result is not specified.
pub fn create_tree_nodes(records: &[ThreadRecord]) -> (r: Vec<ProcessTreeNode>)
    ensures
        forall|k: int| 0 <= k < records.len() ==> #[trigger] lists_pid(r@, records@[k].group_id),
        forall|j: int|
            #![trigger r@[j]]
            0 <= j < r.len() ==> exists|k: int|
                0 <= k < records.len() && is_representative(records@, k) && r@[j] == node_of(
                    #[trigger] records@[k],
                ),
        forall|a: int, b: int| 0 <= a < b < r.len() ==> r@[a].pid != r@[b].pid,
{
    let n = records.len();
    let mut reps: Vec<usize> = Vec::new();
    proof {
        lemma_reps_start(records@);
    }
    let mut i: usize = 0;
    while i < n
        invariant
            i <= n,
            n == records.len(),
            reps_ok(records@, reps@, i as int),
        decreases n - i,
    {
        let g = records[i].group_id;
        let mut j: usize = 0;
        proof {
            lemma_reps_below(records@, reps@, i as int);
        }
        while j < reps.len() && records[reps[j]].group_id != g
            invariant
                j <= reps.len(),
                i < n,
                n == records.len(),
                g == records@[i as int].group_id,
                forall|q: int| 0 <= q < reps.len() ==> #[trigger] reps@[q] < i,
                forall|q: int| 0 <= q < j ==> records@[#[trigger] reps@[q] as int].group_id != g,
            decreases reps.len() - j,
        {
            j = j + 1;
        }
        let ghost before = reps@;
        proof {
            lemma_reps_step(records@, reps@, i as int, j as int);
        }
        if j == reps.len() {
            reps.push(i);
        } else {
            let r = reps[j];
            if records[i].thread_id == g && records[r].thread_id != g {
                reps.set(j, i);
            }
        }
        assert(reps@ =~= reps_next(records@, before, i as int, j as int));
        i = i + 1;
    }
    proof {
        lemma_reps_below(records@, reps@, n as int);
    }
    let mut out: Vec<ProcessTreeNode> = Vec::new();
    let mut j: usize = 0;
    while j < reps.len()
        invariant
            j <= reps.len(),
            n == records.len(),
            forall|q: int|
                0 <= q < reps.len() ==> #[trigger] reps@[q] < n && chosen_upto(
                    records@,
                    reps@[q] as int,
                    n as int,
                ),
            out.len() == j,
            forall|q: int| 0 <= q < j ==> #[trigger] out@[q] == node_of(records@[reps@[q] as int]),
        decreases reps.len() - j,
    {
        out.push(create_tree_node(&records[reps[j]]));
        j = j + 1;
    }
    proof {
        lemma_nodes_from_reps(records@, reps@, out@);
    }
    out
}

/// Record `c` is the one kept for its id: no later record carries the same
/// id (records are indexed by id, a later one replacing an earlier one).
pub open spec fn is_kept(nodes: Seq<ProcessTreeNode>, c: int) -> bool {
    forall|k: int| c < k < nodes.len() ==> #[trigger] nodes[k].pid != nodes[c].pid
}

/// Record `c` hangs under record `p`: `c` names `p`'s id as its parent, the id
/// is not `c`'s own, and `p` is the record kept for that id.
pub open spec fn hangs_under(nodes: Seq<ProcessTreeNode>, c: int, p: int) -> bool {
    &&& 0 <= p < nodes.len()
    &&& nodes[c].parent_pid == Some(nodes[p].pid)
    &&& nodes[p].pid != nodes[c].pid
    &&& is_kept(nodes, p)
}

/// Record `c` is a root: it names no parent, names itself, or names an id
/// that no record carries.
pub open spec fn is_root(nodes: Seq<ProcessTreeNode>, c: int) -> bool {
    forall|p: int| !hangs_under(nodes, c, p)
}

/// The indices below `m` of the kept records that are roots, in input order.
pub open spec fn roots_upto(nodes: Seq<ProcessTreeNode>, m: nat) -> Seq<usize>
    decreases m,
{
    if m == 0 {
        Seq::empty()
    } else {
        let s = roots_upto(nodes, (m - 1) as nat);
        if is_kept(nodes, m - 1) && is_root(nodes, m - 1) {
            s.push((m - 1) as usize)
        } else {
            s
        }
    }
}

/// The indices below `m` of the kept records hanging under `p`, in input order.
pub open spec fn kids_upto(nodes: Seq<ProcessTreeNode>, p: int, m: nat) -> Seq<usize>
    decreases m,
{
    if m == 0 {
        Seq::empty()
    } else {
        let s = kids_upto(nodes, p, (m - 1) as nat);
        if is_kept(nodes, m - 1) && hangs_under(nodes, m - 1, p) {
            s.push((m - 1) as usize)
        } else {
            s
        }
    }
}

/// Record `a` is placed before record `b` among siblings: its key comes
/// strictly first.
pub open spec fn precedes(nodes: Seq<ProcessTreeNode>, order: SortOrder, a: usize, b: usize) -> bool {
    let x = nodes[a as int];
    let y = nodes[b as int];
    match order {
        SortOrder::Memory => x.memory_bytes > y.memory_bytes,
        SortOrder::Cpu => x.cpu_usage > y.cpu_usage,
        SortOrder::Pid => x.pid < y.pid,
        SortOrder::Name => seq_less(x.process_name@, y.process_name@),
    }
}

/// Records `a` and `b` have the same key for `order`.
pub open spec fn same_key(nodes: Seq<ProcessTreeNode>, order: SortOrder, a: usize, b: usize) -> bool {
    let x = nodes[a as int];
    let y = nodes[b as int];
    match order {
        SortOrder::Memory => x.memory_bytes == y.memory_bytes,
        SortOrder::Cpu => x.cpu_usage == y.cpu_usage,
        SortOrder::Pid => x.pid == y.pid,
        SortOrder::Name => x.process_name@ == y.process_name@,
    }
}

/// The entries of `s` whose key equals that of record `k`, in their order.
pub open spec fn key_class(nodes: Seq<ProcessTreeNode>, order: SortOrder, s: Seq<usize>, k: usize) -> Seq<
    usize,
>
    decreases s.len(),
{
    if s.len() == 0 {
        s
    } else if same_key(nodes, order, s.last(), k) {
        key_class(nodes, order, s.drop_last(), k).push(s.last())
    } else {
        key_class(nodes, order, s.drop_last(), k)
    }
}

/// `s` with `x` inserted after the last element that `x` does not precede.
pub open spec fn insert_ordered(
    nodes: Seq<ProcessTreeNode>,
    order: SortOrder,
    x: usize,
    s: Seq<usize>,
) -> Seq<usize>
    decreases s.len(),
{
    if s.len() == 0 {
        seq![x]
    } else if precedes(nodes, order, x, s.last()) {
        insert_ordered(nodes, order, x, s.drop_last()).push(s.last())
    } else {
        s.push(x)
    }
}

/// `s` ordered by `precedes`, each element inserted in turn.
pub open spec fn sort_ordered(nodes: Seq<ProcessTreeNode>, order: SortOrder, s: Seq<usize>) -> Seq<
    usize,
>
    decreases s.len(),
{
    if s.len() == 0 {
        s
    } else {
        insert_ordered(nodes, order, s.last(), sort_ordered(nodes, order, s.drop_last()))
    }
}

/// The roots, in sibling order.
pub open spec fn root_order(nodes: Seq<ProcessTreeNode>, order: SortOrder) -> Seq<usize> {
    sort_ordered(nodes, order, roots_upto(nodes, nodes.len()))
}

/// The children of record `p`, in sibling order.
pub open spec fn child_order(nodes: Seq<ProcessTreeNode>, order: SortOrder, p: int) -> Seq<usize> {
    sort_ordered(nodes, order, kids_upto(nodes, p, nodes.len()))
}

/// Pre-order emission of the subtree of record `i` at `depth`, descending at
/// most `fuel` further levels.
pub open spec fn emit(
    nodes: Seq<ProcessTreeNode>,
    order: SortOrder,
    i: usize,
    depth: int,
    last: bool,
    fuel: nat,
) -> Seq<ProcessTreeNode>
    decreases fuel, 0nat,
{
    let head = seq![placed(nodes[i as int], depth, last)];
    if fuel == 0 {
        head
    } else {
        let kids = child_order(nodes, order, i as int);
        head + emit_list(nodes, order, kids, kids.len(), depth + 1, (fuel - 1) as nat)
    }
}

/// Pre-order emission of the subtrees of the first `k` of the siblings `kids`.
pub open spec fn emit_list(
    nodes: Seq<ProcessTreeNode>,
    order: SortOrder,
    kids: Seq<usize>,
    k: nat,
    depth: int,
    fuel: nat,
) -> Seq<ProcessTreeNode>
    decreases fuel, k,
{
    if k == 0 || k > kids.len() {
        Seq::empty()
    } else {
        emit_list(nodes, order, kids, (k - 1) as nat, depth, fuel) + emit(
            nodes,
            order,
            kids[k - 1],
            depth,
            k == kids.len(),
            fuel,
        )
    }
}

/// The display order of the forest: the roots in sibling order, each
/// followed by its subtree in pre-order.
pub open spec fn forest_order(nodes: Seq<ProcessTreeNode>, order: SortOrder) -> Seq<
    ProcessTreeNode,
> {
    let roots = root_order(nodes, order);
    emit_list(nodes, order, roots, roots.len(), 0, nodes.len())
}

/// Whether record `c` is the one kept for its id.
fn kept_slot(nodes: &[ProcessTreeNode], c: usize) -> (r: bool)
    requires
        c < nodes.len(),
    ensures
        r == is_kept(nodes@, c as int),
{
    let mut k: usize = c + 1;
    while k < nodes.len()
        invariant
            c < k <= nodes.len(),
            forall|q: int| c < q < k ==> #[trigger] nodes@[q].pid != nodes@[c as int].pid,
        decreases nodes.len() - k,
    {
        if nodes[k].pid == nodes[c].pid {
            return false;
        }
        k = k + 1;
    }
    true
}

/// Index of the record that record `c` hangs under, if any.
fn parent_slot(nodes: &[ProcessTreeNode], c: usize) -> (r: Option<usize>)
    requires
        c < nodes.len(),
    ensures
        match r {
            Some(p) => p < nodes.len() && hangs_under(nodes@, c as int, p as int),
            None => is_root(nodes@, c as int),
        },
{
    match nodes[c].parent_pid {
        None => None,
        Some(pp) => {
            if pp == nodes[c].pid {
                return None;
            }
            let mut j: usize = nodes.len();
            while j > 0
                invariant
                    j <= nodes.len(),
                    c < nodes.len(),
                    nodes@[c as int].parent_pid == Some(pp),
                    pp != nodes@[c as int].pid,
                    forall|k: int| j <= k < nodes.len() ==> #[trigger] nodes@[k].pid != pp,
                decreases j,
            {
                if nodes[j - 1].pid == pp {
                    return Some(j - 1);
                }
                j = j - 1;
            }
            None
        },
    }
}

/// Whether record `a` is placed before record `b` among siblings.
fn sibling_precedes(
    nodes: &[ProcessTreeNode],
    names: &Vec<Vec<char>>,
    order: &SortOrder,
    a: usize,
    b: usize,
) -> (r: bool)
    requires
        a < nodes.len(),
        b < nodes.len(),
        names.len() == nodes.len(),
        forall|i: int| 0 <= i < nodes.len() ==> names@[i]@ == nodes@[i].process_name@,
    ensures
        r == precedes(nodes@, *order, a, b),
{
    match order {
        SortOrder::Memory => {
            let x = nodes[a].memory_bytes;
            let y = nodes[b].memory_bytes;
            x > y
        },
        SortOrder::Cpu => {
            let x = nodes[a].cpu_usage;
            let y = nodes[b].cpu_usage;
            x > y
        },
        SortOrder::Pid => {
            let x = nodes[a].pid;
            let y = nodes[b].pid;
            x < y
        },
        SortOrder::Name => {
            chars_less(&names[a], &names[b])
        },
    }
}

proof fn lemma_insert_at(
    nodes: Seq<ProcessTreeNode>,
    order: SortOrder,
    x: usize,
    s: Seq<usize>,
    pos: int,
)
    requires
        0 <= pos <= s.len(),
        forall|j: int| pos <= j < s.len() ==> precedes(nodes, order, x, #[trigger] s[j]),
        pos > 0 ==> !precedes(nodes, order, x, s[pos - 1]),
    ensures
        insert_ordered(nodes, order, x, s) == s.insert(pos, x),
    decreases s.len(),
{
    if s.len() == 0 {
        assert(s.insert(pos, x) =~= seq![x]);
    } else if pos == s.len() {
        assert(s.insert(pos, x) =~= s.push(x));
    } else {
        let t = s.drop_last();
        assert(precedes(nodes, order, x, s[s.len() - 1]));
        assert forall|j: int| pos <= j < t.len() implies precedes(nodes, order, x, #[trigger] t[j]) by {
            assert(t[j] == s[j]);
        }
        if pos > 0 {
            assert(t[pos - 1] == s[pos - 1]);
        }
        lemma_insert_at(nodes, order, x, t, pos);
        assert(s.insert(pos, x) =~= t.insert(pos, x).push(s.last()));
    }
}

/// Puts `ids` in sibling order.
pub(crate) fn sort_siblings(
    ids: &mut Vec<usize>,
    nodes: &[ProcessTreeNode],
    names: &Vec<Vec<char>>,
    order: &SortOrder,
)
    requires
        forall|i: int| 0 <= i < old(ids).len() ==> old(ids)@[i] < nodes.len(),
        names.len() == nodes.len(),
        forall|i: int| 0 <= i < nodes.len() ==> names@[i]@ == nodes@[i].process_name@,
    ensures
        final(ids)@ == sort_ordered(nodes@, *order, old(ids)@),
        forall|i: int| 0 <= i < final(ids).len() ==> final(ids)@[i] < nodes.len(),
{
    let mut out: Vec<usize> = Vec::new();
    let mut i: usize = 0;
    while i < ids.len()
        invariant
            i <= ids.len(),
            forall|k: int| 0 <= k < ids.len() ==> ids@[k] < nodes.len(),
            forall|k: int| 0 <= k < out.len() ==> out@[k] < nodes.len(),
            out@ == sort_ordered(nodes@, *order, ids@.take(i as int)),
            names.len() == nodes.len(),
            forall|k: int| 0 <= k < nodes.len() ==> names@[k]@ == nodes@[k].process_name@,
        decreases ids.len() - i,
    {
        let x = ids[i];
        let mut pos: usize = out.len();
        while pos > 0 && sibling_precedes(nodes, names, order, x, out[pos - 1])
            invariant
                pos <= out.len(),
                x < nodes.len(),
                forall|k: int| 0 <= k < out.len() ==> out@[k] < nodes.len(),
                forall|j: int| pos <= j < out.len() ==> precedes(nodes@, *order, x, #[trigger] out@[j]),
                names.len() == nodes.len(),
                forall|k: int| 0 <= k < nodes.len() ==> names@[k]@ == nodes@[k].process_name@,
            decreases pos,
        {
            pos = pos - 1;
        }
        proof {
            lemma_insert_at(nodes@, *order, x, out@, pos as int);
            let t = ids@.take(i + 1);
            assert(t.drop_last() =~= ids@.take(i as int));
        }
        out.insert(pos, x);
        i = i + 1;
    }
    assert(ids@.take(ids.len() as int) =~= ids@);
    *ids = out;
}

/// Appends the subtree of record `i` to `result` in pre-order.
fn flatten_tree_dfs(
    nodes: &[ProcessTreeNode],
    order: &SortOrder,
    children: &Vec<Vec<usize>>,
    i: usize,
    depth: usize,
    is_last_child: bool,
    fuel: usize,
    result: &mut Vec<ProcessTreeNode>,
)
    requires
        i < nodes.len(),
        depth + fuel <= nodes.len(),
        children.len() == nodes.len(),
        forall|p: int| 0 <= p < nodes.len() ==> children@[p]@ == child_order(nodes@, *order, p),
        forall|p: int, q: int|
            0 <= p < nodes.len() && 0 <= q < children@[p].len() ==> children@[p]@[q] < nodes.len(),
    ensures
        final(result)@ == old(result)@ + emit(
            nodes@,
            *order,
            i,
            depth as int,
            is_last_child,
            fuel as nat,
        ),
    decreases fuel,
{
    let node = nodes[i].placed_at(depth, is_last_child);
    result.push(node);
    if fuel == 0 {
        return;
    }
    let ghost start = result@;
    let kids = &children[i];
    let mut k: usize = 0;
    while k < kids.len()
        invariant
            k <= kids.len(),
            i < nodes.len(),
            0 < fuel,
            depth + fuel <= nodes.len(),
            children.len() == nodes.len(),
            kids@ == children@[i as int]@,
            forall|p: int| 0 <= p < nodes.len() ==> children@[p]@ == child_order(nodes@, *order, p),
            forall|p: int, q: int|
                0 <= p < nodes.len() && 0 <= q < children@[p].len() ==> children@[p]@[q]
                    < nodes.len(),
            result@ == start + emit_list(
                nodes@,
                *order,
                kids@,
                k as nat,
                depth + 1,
                (fuel - 1) as nat,
            ),
        decreases kids.len() - k,
    {
        let child = kids[k];
        flatten_tree_dfs(nodes, order, children, child, depth + 1, k + 1 == kids.len(), fuel - 1, result);
        proof {
            let l = emit_list(nodes@, *order, kids@, k as nat, depth + 1, (fuel - 1) as nat);
            let e = emit(nodes@, *order, child, depth + 1, k + 1 == kids.len(), (fuel - 1) as nat);
            assert(emit_list(nodes@, *order, kids@, (k + 1) as nat, depth + 1, (fuel - 1) as nat)
                == l + e);
            assert(start + l + e =~= start + (l + e));
        }
        k = k + 1;
    }
    proof {
        let ghost head = seq![placed(nodes@[i as int], depth as int, is_last_child)];
        let l = emit_list(nodes@, *order, kids@, kids@.len(), depth + 1, (fuel - 1) as nat);
        assert(start =~= old(result)@ + head);
        assert(old(result)@ + head + l =~= old(result)@ + (head + l));
    }
}

/// Arranges `nodes` as a forest and lists it in display order: roots first in
/// sibling order, each followed by its subtree in pre-order, every record
/// annotated with its depth (roots at 0) and whether it is the last of its
/// siblings.
///
/// Records are indexed by id: of several records with one id only the last
/// is kept. A kept record is a root when it names no parent, names itself,
/// or names an id outside `nodes`; otherwise it hangs under the record kept
/// for that id. Records on a parent cycle that no root reaches are left out.
pub fn build_process_tree(nodes: &[ProcessTreeNode], sort_order: &SortOrder) -> (r: Vec<
    ProcessTreeNode,
>)
    ensures
        r@ == forest_order(nodes@, *sort_order),
{
    let n = nodes.len();
    let mut result: Vec<ProcessTreeNode> = Vec::new();
    if n == 0 {
        return result;
    }

    // Where each record hangs.
    let mut parents: Vec<Option<usize>> = Vec::new();
    let mut names: Vec<Vec<char>> = Vec::new();
    let mut kept: Vec<bool> = Vec::new();
    let mut c: usize = 0;
    while c < n
        invariant
            c <= n,
            n == nodes.len(),
            parents.len() == c,
            kept.len() == c,
            forall|k: int| 0 <= k < c ==> #[trigger] kept@[k] == is_kept(nodes@, k),
            names.len() == c,
            forall|k: int| 0 <= k < c ==> names@[k]@ == nodes@[k].process_name@,
            forall|k: int|
                0 <= k < c ==> match #[trigger] parents@[k] {
                    Some(p) => p < n && hangs_under(nodes@, k, p as int),
                    None => is_root(nodes@, k),
                },
        decreases n - c,
    {
        parents.push(parent_slot(nodes, c));
        kept.push(kept_slot(nodes, c));
        names.push(chars_of(nodes[c].process_name.as_str()));
        c = c + 1;
    }

    // Children of each record, and the roots, in sibling order.
    let mut children: Vec<Vec<usize>> = Vec::new();
    let mut p: usize = 0;
    while p < n
        invariant
            p <= n,
            n == nodes.len(),
            parents.len() == n,
            kept.len() == n,
            forall|k: int| 0 <= k < n ==> #[trigger] kept@[k] == is_kept(nodes@, k),
            names.len() == n,
            forall|k: int| 0 <= k < n ==> names@[k]@ == nodes@[k].process_name@,
            forall|k: int|
                0 <= k < n ==> match #[trigger] parents@[k] {
                    Some(q) => q < n && hangs_under(nodes@, k, q as int),
                    None => is_root(nodes@, k),
                },
            children.len() == p,
            forall|q: int| 0 <= q < p ==> children@[q]@ == child_order(nodes@, *sort_order, q),
            forall|q: int, j: int|
                0 <= q < p && 0 <= j < children@[q].len() ==> children@[q]@[j] < n,
        decreases n - p,
    {
        let mut kids: Vec<usize> = Vec::new();
        let mut c: usize = 0;
        while c < n
            invariant
                c <= n,
                p < n,
                n == nodes.len(),
                parents.len() == n,
                kept.len() == n,
                forall|k: int| 0 <= k < n ==> #[trigger] kept@[k] == is_kept(nodes@, k),
                forall|k: int|
                    0 <= k < n ==> match #[trigger] parents@[k] {
                        Some(q) => q < n && hangs_under(nodes@, k, q as int),
                        None => is_root(nodes@, k),
                    },
                kids@ == kids_upto(nodes@, p as int, c as nat),
                forall|j: int| 0 <= j < kids.len() ==> kids@[j] < n,
            decreases n - c,
        {
            proof {
                match parents@[c as int] {
                    Some(q) => {
                        if hangs_under(nodes@, c as int, p as int) && q != p {
                            if q < p {
                                assert(nodes@[q as int].pid == nodes@[p as int].pid);
                            } else {
                                assert(nodes@[p as int].pid == nodes@[q as int].pid);
                            }
                        }
                    },
                    None => {},
                }
            }
            if kept[c] && parents[c] == Some(p) {
                kids.push(c);
            }
            c = c + 1;
        }
        sort_siblings(&mut kids, nodes, &names, sort_order);
        children.push(kids);
        p = p + 1;
    }
    let mut roots: Vec<usize> = Vec::new();
    let mut c: usize = 0;
    while c < n
        invariant
            c <= n,
            n == nodes.len(),
            parents.len() == n,
            kept.len() == n,
            forall|k: int| 0 <= k < n ==> #[trigger] kept@[k] == is_kept(nodes@, k),
            forall|k: int|
                0 <= k < n ==> match #[trigger] parents@[k] {
                    Some(q) => q < n && hangs_under(nodes@, k, q as int),
                    None => is_root(nodes@, k),
                },
            roots@ == roots_upto(nodes@, c as nat),
            forall|j: int| 0 <= j < roots.len() ==> roots@[j] < n,
        decreases n - c,
    {
        if kept[c] && parents[c].is_none() {
            roots.push(c);
        }
        c = c + 1;
    }
    sort_siblings(&mut roots, nodes, &names, sort_order);
    // Depth-first emission from each root.

    let mut k: usize = 0;
    while k < roots.len()
        invariant
            k <= roots.len(),
            n == nodes.len(),
            children.len() == n,
            roots@ == root_order(nodes@, *sort_order),
            forall|j: int| 0 <= j < roots.len() ==> roots@[j] < n,
            forall|q: int| 0 <= q < n ==> children@[q]@ == child_order(nodes@, *sort_order, q),
            forall|q: int, j: int|
                0 <= q < n && 0 <= j < children@[q].len() ==> children@[q]@[j] < n,
            result@ == emit_list(nodes@, *sort_order, roots@, k as nat, 0, n as nat),
        decreases roots.len() - k,
    {
        let root = roots[k];
        flatten_tree_dfs(nodes, sort_order, &children, root, 0, k + 1 == roots.len(), n, &mut result);
        proof {
            assert(emit_list(nodes@, *sort_order, roots@, (k + 1) as nat, 0, n as nat) == emit_list(
                nodes@,
                *sort_order,
                roots@,
                k as nat,
                0,
                n as nat,
            ) + emit(nodes@, *sort_order, root, 0, k + 1 == roots.len(), n as nat));
        }
        k = k + 1;
    }
    result
}

/// Some record of `nodes` carries the id that `n` names as its parent, and
/// that id is not `n`'s own.
pub open spec fn parent_present(nodes: Seq<ProcessTreeNode>, n: ProcessTreeNode) -> bool {
    exists|p: int| 0 <= p < nodes.len() && n.parent_pid == Some(nodes[p].pid) && nodes[p].pid != n.pid
}

/// Entry `k` of `s` sits at depth `d` or deeper; if deeper, its parent is
/// present in `nodes` and an earlier entry carries its parent's id one level up.
spec fn entry_nested(nodes: Seq<ProcessTreeNode>, s: Seq<ProcessTreeNode>, d: int, k: int) -> bool {
    &&& s[k].depth >= d
    &&& s[k].depth > d ==> parent_present(nodes, s[k])
    &&& s[k].depth > d ==> exists|j: int| #[trigger] parent_entry(s, k, j)
}

/// Entry `j` of `s` is the parent entry of entry `k`: it comes earlier,
/// carries the id that `k` names as its parent, sits one level up, and every
/// entry between them is deeper than it (they belong to its subtree).
pub open spec fn parent_entry(s: Seq<ProcessTreeNode>, k: int, j: int) -> bool {
    &&& 0 <= j < k
    &&& s[k].parent_pid == Some(s[j].pid)
    &&& s[j].depth + 1 == s[k].depth
    &&& forall|m: int| j < m < k ==> #[trigger] s[m].depth > s[j].depth
}

spec fn nested(nodes: Seq<ProcessTreeNode>, s: Seq<ProcessTreeNode>, d: int) -> bool {
    forall|k: int| 0 <= k < s.len() ==> #[trigger] entry_nested(nodes, s, d, k)
}

/// Entry `k` of `s`, if at depth `d`, carries the id and parent id of one of `kids`.
spec fn entry_top(nodes: Seq<ProcessTreeNode>, s: Seq<ProcessTreeNode>, d: int, kids: Seq<usize>, k: int) -> bool {
    s[k].depth == d ==> exists|j: int|
        0 <= j < kids.len() && s[k].pid == nodes[#[trigger] kids[j] as int].pid && s[k].parent_pid
            == nodes[kids[j] as int].parent_pid
}

spec fn tops_from(nodes: Seq<ProcessTreeNode>, s: Seq<ProcessTreeNode>, d: int, kids: Seq<usize>) -> bool {
    forall|k: int| 0 <= k < s.len() ==> #[trigger] entry_top(nodes, s, d, kids, k)
}

proof fn lemma_insert_members(nodes: Seq<ProcessTreeNode>, order: SortOrder, x: usize, s: Seq<usize>)
    ensures
        forall|j: int|
            0 <= j < insert_ordered(nodes, order, x, s).len() ==> #[trigger] insert_ordered(
                nodes,
                order,
                x,
                s,
            )[j] == x || s.contains(insert_ordered(nodes, order, x, s)[j]),
        insert_ordered(nodes, order, x, s).len() == s.len() + 1,
    decreases s.len(),
{
    let r = insert_ordered(nodes, order, x, s);
    if s.len() > 0 && precedes(nodes, order, x, s.last()) {
        let t = s.drop_last();
        lemma_insert_members(nodes, order, x, t);
        let rt = insert_ordered(nodes, order, x, t);
        assert forall|j: int| 0 <= j < r.len() implies #[trigger] r[j] == x || s.contains(r[j]) by {
            if j < rt.len() {
                assert(r[j] == rt[j]);
                if rt[j] != x {
                    let w = choose|w: int| 0 <= w < t.len() && t[w] == rt[j];
                    assert(s[w] == rt[j]);
                }
            } else {
                assert(s[s.len() - 1] == r[j]);
            }
        }
    } else if s.len() > 0 {
        assert forall|j: int| 0 <= j < r.len() implies #[trigger] r[j] == x || s.contains(r[j]) by {
            if j < s.len() {
                assert(s[j] == r[j]);
            }
        }
    }
}

proof fn lemma_sort_members(nodes: Seq<ProcessTreeNode>, order: SortOrder, s: Seq<usize>)
    ensures
        forall|j: int|
            0 <= j < sort_ordered(nodes, order, s).len() ==> s.contains(
                #[trigger] sort_ordered(nodes, order, s)[j],
            ),
    decreases s.len(),
{
    if s.len() > 0 {
        let t = s.drop_last();
        lemma_sort_members(nodes, order, t);
        lemma_insert_members(nodes, order, s.last(), sort_ordered(nodes, order, t));
        let r = sort_ordered(nodes, order, s);
        assert forall|j: int| 0 <= j < r.len() implies s.contains(#[trigger] r[j]) by {
            if r[j] == s.last() {
                assert(s[s.len() - 1] == r[j]);
            } else {
                let w = choose|w: int| 0 <= w < t.len() && t[w] == r[j];
                assert(s[w] == r[j]);
            }
        }
    }
}

proof fn lemma_kids_upto(nodes: Seq<ProcessTreeNode>, p: int, m: nat)
    requires
        m <= usize::MAX,
    ensures
        forall|j: int|
            0 <= j < kids_upto(nodes, p, m).len() ==> #[trigger] kids_upto(nodes, p, m)[j] < m
                && hangs_under(nodes, kids_upto(nodes, p, m)[j] as int, p),
    decreases m,
{
    if m > 0 {
        let s = kids_upto(nodes, p, (m - 1) as nat);
        lemma_kids_upto(nodes, p, (m - 1) as nat);
        if is_kept(nodes, m - 1) && hangs_under(nodes, m - 1, p) {
            let t = s.push((m - 1) as usize);
            assert(kids_upto(nodes, p, m) == t);
            assert forall|j: int| 0 <= j < t.len() implies #[trigger] t[j] < m && hangs_under(
                nodes,
                t[j] as int,
                p,
            ) by {
                if j < s.len() {
                    assert(t[j] == s[j]);
                }
            }
        }
    }
}

proof fn lemma_roots_upto(nodes: Seq<ProcessTreeNode>, m: nat)
    requires
        m <= usize::MAX,
    ensures
        forall|j: int|
            0 <= j < roots_upto(nodes, m).len() ==> #[trigger] roots_upto(nodes, m)[j] < m,
    decreases m,
{
    if m > 0 {
        let s = roots_upto(nodes, (m - 1) as nat);
        lemma_roots_upto(nodes, (m - 1) as nat);
        if is_kept(nodes, m - 1) && is_root(nodes, m - 1) {
            let t = s.push((m - 1) as usize);
            assert(roots_upto(nodes, m) == t);
            assert forall|j: int| 0 <= j < t.len() implies #[trigger] t[j] < m by {
                if j < s.len() {
                    assert(t[j] == s[j]);
                }
            }
        }
    }
}

proof fn lemma_nested_concat(
    nodes: Seq<ProcessTreeNode>,
    a: Seq<ProcessTreeNode>,
    b: Seq<ProcessTreeNode>,
    d: int,
    kids: Seq<usize>,
)
    requires
        nested(nodes, a, d),
        nested(nodes, b, d),
        tops_from(nodes, a, d, kids),
        tops_from(nodes, b, d, kids),
    ensures
        nested(nodes, a + b, d),
        tops_from(nodes, a + b, d, kids),
{
    let s = a + b;
    assert forall|k: int| 0 <= k < s.len() implies #[trigger] entry_top(nodes, s, d, kids, k) by {
        if k >= a.len() {
            assert(s[k] == b[k - a.len()]);
            assert(entry_top(nodes, b, d, kids, k - a.len()));
        } else {
            assert(s[k] == a[k]);
            assert(entry_top(nodes, a, d, kids, k));
        }
    }
    assert forall|k: int| 0 <= k < s.len() implies #[trigger] entry_nested(nodes, s, d, k) by {
        if k >= a.len() {
            let m = k - a.len();
            assert(s[k] == b[m]);
            assert(entry_nested(nodes, b, d, m));
            assert(entry_top(nodes, b, d, kids, m));
            if b[m].depth > d {
                let j = choose|j: int| #[trigger] parent_entry(b, m, j);
                assert(s[j + a.len()] == b[j]);
                assert forall|q: int| j + a.len() < q < k implies #[trigger] s[q].depth > s[j
                    + a.len()].depth by {
                    assert(s[q] == b[q - a.len()]);
                }
                assert(parent_entry(s, k, j + a.len()));
            }
        } else {
            assert(s[k] == a[k]);
            assert(entry_nested(nodes, a, d, k));
            assert(entry_top(nodes, a, d, kids, k));
            if a[k].depth > d {
                let j = choose|j: int| #[trigger] parent_entry(a, k, j);
                assert(s[j] == a[j]);
                assert forall|q: int| j < q < k implies #[trigger] s[q].depth > s[j].depth by {
                    assert(s[q] == a[q]);
                }
                assert(parent_entry(s, k, j));
            }
        }
    }
}

proof fn lemma_child_order_members(nodes: Seq<ProcessTreeNode>, order: SortOrder, i: int)
    requires
        nodes.len() <= usize::MAX,
    ensures
        forall|j: int|
            0 <= j < child_order(nodes, order, i).len() ==> #[trigger] child_order(nodes, order, i)[j]
                < nodes.len() && hangs_under(nodes, child_order(nodes, order, i)[j] as int, i),
{
    let kids = child_order(nodes, order, i);
    let src = kids_upto(nodes, i, nodes.len());
    lemma_sort_members(nodes, order, src);
    lemma_kids_upto(nodes, i, nodes.len());
    assert forall|j: int| 0 <= j < kids.len() implies #[trigger] kids[j] < nodes.len()
        && hangs_under(nodes, kids[j] as int, i) by {
        assert(src.contains(kids[j]));
        let w = choose|w: int| 0 <= w < src.len() && src[w] == kids[j];
        assert(src[w] < nodes.len());
    }
}

proof fn lemma_emit_nested(
    nodes: Seq<ProcessTreeNode>,
    order: SortOrder,
    i: usize,
    d: int,
    last: bool,
    fuel: nat,
)
    requires
        i < nodes.len(),
        nodes.len() <= usize::MAX,
        0 <= d,
        d + fuel <= usize::MAX,
    ensures
        nested(nodes, emit(nodes, order, i, d, last, fuel), d),
        emit(nodes, order, i, d, last, fuel).len() > 0,
        emit(nodes, order, i, d, last, fuel)[0] == placed(nodes[i as int], d, last),
        forall|m: int|
            1 <= m < emit(nodes, order, i, d, last, fuel).len() ==> #[trigger] emit(
                nodes,
                order,
                i,
                d,
                last,
                fuel,
            )[m].depth > d,
    decreases fuel, 0nat,
{
    let head = seq![placed(nodes[i as int], d, last)];
    let e = emit(nodes, order, i, d, last, fuel);
    if fuel == 0 {
        assert(entry_nested(nodes, e, d, 0));
    } else {
        let kids = child_order(nodes, order, i as int);
        lemma_child_order_members(nodes, order, i as int);
        let l = emit_list(nodes, order, kids, kids.len(), d + 1, (fuel - 1) as nat);
        lemma_emit_list_nested(nodes, order, kids, kids.len(), d + 1, (fuel - 1) as nat);
        assert(e == head + l);
        assert forall|k: int| 1 <= k < e.len() implies #[trigger] e[k].depth > d by {
            assert(e[k] == l[k - 1]);
            assert(entry_nested(nodes, l, d + 1, k - 1));
        }
        assert forall|k: int| 0 <= k < e.len() implies #[trigger] entry_nested(nodes, e, d, k) by {
            if k > 0 {
                let m = k - 1;
                assert(e[k] == l[m]);
                assert(entry_nested(nodes, l, d + 1, m));
                assert(entry_top(nodes, l, d + 1, kids, m));
                if l[m].depth == d + 1 {
                    let j = choose|j: int|
                        0 <= j < kids.len() && l[m].pid == nodes[#[trigger] kids[j] as int].pid
                            && l[m].parent_pid == nodes[kids[j] as int].parent_pid;
                    assert(hangs_under(nodes, kids[j] as int, i as int));
                    assert(e[0].pid == nodes[i as int].pid);
                    assert forall|q: int| 0 < q < k implies #[trigger] e[q].depth > e[0].depth by {
                        assert(e[q] == l[q - 1]);
                        assert(entry_nested(nodes, l, d + 1, q - 1));
                    }
                    assert(parent_entry(e, k, 0));
                } else {
                    let j = choose|j: int| #[trigger] parent_entry(l, m, j);
                    assert(e[j + 1] == l[j]);
                    assert forall|q: int| j + 1 < q < k implies #[trigger] e[q].depth > e[j + 1].depth by {
                        assert(e[q] == l[q - 1]);
                    }
                    assert(parent_entry(e, k, j + 1));
                }
            }
        }
    }
}

proof fn lemma_emit_list_nested(
    nodes: Seq<ProcessTreeNode>,
    order: SortOrder,
    kids: Seq<usize>,
    k: nat,
    d: int,
    fuel: nat,
)
    requires
        forall|j: int| 0 <= j < kids.len() ==> #[trigger] kids[j] < nodes.len(),
        nodes.len() <= usize::MAX,
        0 <= d,
        d + fuel <= usize::MAX,
    ensures
        nested(nodes, emit_list(nodes, order, kids, k, d, fuel), d),
        tops_from(nodes, emit_list(nodes, order, kids, k, d, fuel), d, kids),
    decreases fuel, k,
{
    if k > 0 && k <= kids.len() {
        let a = emit_list(nodes, order, kids, (k - 1) as nat, d, fuel);
        let c = kids[k - 1];
        let b = emit(nodes, order, c, d, k == kids.len(), fuel);
        lemma_emit_list_nested(nodes, order, kids, (k - 1) as nat, d, fuel);
        lemma_emit_nested(nodes, order, c, d, k == kids.len(), fuel);
        assert forall|m: int| 0 <= m < b.len() implies #[trigger] entry_top(nodes, b, d, kids, m) by {
            if m == 0 {
                assert(kids[k - 1] == c);
            } else {
                assert(b[m].depth > d);
            }
        }
        lemma_nested_concat(nodes, a, b, d, kids);
    } else {
        assert(emit_list(nodes, order, kids, k, d, fuel) =~= Seq::empty());
    }
}

/// In display order every record below the top level has a parent entry: an
/// earlier entry carrying its parent's id one level up, with only deeper
/// entries between them. So a parent is emitted before its children, hence
/// before all of its descendants, each subtree follows its root without
/// interruption, and depth grows by exactly one from parent to child.
pub proof fn lemma_parent_precedes_child(nodes: Seq<ProcessTreeNode>, order: SortOrder)
    requires
        nodes.len() <= usize::MAX,
    ensures
        forall|k: int|
            0 <= k < forest_order(nodes, order).len() && #[trigger] forest_order(nodes, order)[k].depth
                > 0 ==> exists|j: int| parent_entry(forest_order(nodes, order), k, j),
{
    let f = forest_order(nodes, order);
    lemma_roots_nested(nodes, order);
    assert forall|k: int| 0 <= k < f.len() && #[trigger] f[k].depth > 0 implies exists|j: int|
        parent_entry(f, k, j) by {
        assert(entry_nested(nodes, f, 0, k));
    }
}

proof fn lemma_roots_upto_contains(nodes: Seq<ProcessTreeNode>, m: nat, c: int)
    requires
        0 <= c < m <= usize::MAX,
        is_kept(nodes, c),
        is_root(nodes, c),
    ensures
        roots_upto(nodes, m).contains(c as usize),
    decreases m,
{
    let s = roots_upto(nodes, (m - 1) as nat);
    if c == m - 1 {
        assert(roots_upto(nodes, m) == s.push(c as usize));
        assert(roots_upto(nodes, m)[s.len() as int] == c as usize);
    } else {
        lemma_roots_upto_contains(nodes, (m - 1) as nat, c);
        let w = choose|w: int| 0 <= w < s.len() && s[w] == c as usize;
        if is_kept(nodes, m - 1) && is_root(nodes, m - 1) {
            assert(roots_upto(nodes, m)[w] == c as usize);
        }
    }
}

proof fn lemma_emit_list_has(
    nodes: Seq<ProcessTreeNode>,
    order: SortOrder,
    kids: Seq<usize>,
    k: nat,
    d: int,
    fuel: nat,
    w: int,
)
    requires
        0 <= w < k <= kids.len(),
        forall|j: int| 0 <= j < kids.len() ==> #[trigger] kids[j] < nodes.len(),
        nodes.len() <= usize::MAX,
        0 <= d,
        d + fuel <= usize::MAX,
    ensures
        exists|q: int|
            0 <= q < emit_list(nodes, order, kids, k, d, fuel).len() && #[trigger] emit_list(
                nodes,
                order,
                kids,
                k,
                d,
                fuel,
            )[q] == placed(nodes[kids[w] as int], d, w + 1 == kids.len()),
    decreases k,
{
    let a = emit_list(nodes, order, kids, (k - 1) as nat, d, fuel);
    let b = emit(nodes, order, kids[k - 1], d, k == kids.len(), fuel);
    let l = emit_list(nodes, order, kids, k, d, fuel);
    assert(l == a + b);
    if w == k - 1 {
        lemma_emit_nested(nodes, order, kids[k - 1], d, k == kids.len(), fuel);
        assert(l[a.len() as int] == b[0]);
    } else {
        lemma_emit_list_has(nodes, order, kids, (k - 1) as nat, d, fuel, w);
        let q = choose|q: int|
            0 <= q < a.len() && #[trigger] a[q] == placed(nodes[kids[w] as int], d, w + 1 == kids.len());
        assert(l[q] == a[q]);
    }
}

/// Every kept record that is a root (in particular a record whose parent is
/// not among `nodes`, when ids are distinct) is emitted at depth 0.
pub proof fn lemma_root_emitted(nodes: Seq<ProcessTreeNode>, order: SortOrder, c: int)
    requires
        nodes.len() <= usize::MAX,
        0 <= c < nodes.len(),
        is_kept(nodes, c),
        is_root(nodes, c),
    ensures
        exists|k: int|
            0 <= k < forest_order(nodes, order).len() && #[trigger] forest_order(nodes, order)[k].pid
                == nodes[c].pid && forest_order(nodes, order)[k].depth == 0,
{
    broadcast use vstd::seq_lib::group_to_multiset_ensures;

    let src = roots_upto(nodes, nodes.len());
    let roots = root_order(nodes, order);
    lemma_roots_upto_contains(nodes, nodes.len(), c);
    lemma_siblings_permuted(nodes, order, src);
    assert(src.to_multiset().count(c as usize) > 0);
    assert(roots.contains(c as usize));
    let w = choose|w: int| 0 <= w < roots.len() && roots[w] == c as usize;
    lemma_roots_upto(nodes, nodes.len());
    lemma_sort_members(nodes, order, src);
    assert forall|j: int| 0 <= j < roots.len() implies #[trigger] roots[j] < nodes.len() by {
        assert(src.contains(roots[j]));
        let v = choose|v: int| 0 <= v < src.len() && src[v] == roots[j];
        assert(src[v] < nodes.len());
    }
    lemma_emit_list_has(nodes, order, roots, roots.len(), 0, nodes.len(), w);
    let f = forest_order(nodes, order);
    let q = choose|q: int| 0 <= q < f.len() && #[trigger] f[q] == placed(nodes[c], 0, w + 1 == roots.len());
    assert(f[q].pid == nodes[c].pid);
}

/// A record whose parent is not among `nodes` (or that names itself as its
/// parent) is always placed at depth 0.
pub proof fn lemma_orphan_at_top(nodes: Seq<ProcessTreeNode>, order: SortOrder)
    requires
        nodes.len() <= usize::MAX,
    ensures
        forall|k: int|
            0 <= k < forest_order(nodes, order).len() && !parent_present(
                nodes,
                #[trigger] forest_order(nodes, order)[k],
            ) ==> forest_order(nodes, order)[k].depth == 0,
{
    let f = forest_order(nodes, order);
    lemma_roots_nested(nodes, order);
    assert forall|k: int| 0 <= k < f.len() && !parent_present(nodes, #[trigger] f[k]) implies f[k].depth
        == 0 by {
        assert(entry_nested(nodes, f, 0, k));
    }
}

proof fn lemma_roots_nested(nodes: Seq<ProcessTreeNode>, order: SortOrder)
    requires
        nodes.len() <= usize::MAX,
    ensures
        nested(nodes, forest_order(nodes, order), 0),
{
    let roots = root_order(nodes, order);
    lemma_sort_members(nodes, order, roots_upto(nodes, nodes.len()));
    lemma_roots_upto(nodes, nodes.len());
    assert forall|j: int| 0 <= j < roots.len() implies #[trigger] roots[j] < nodes.len() by {
        let w = choose|w: int|
            0 <= w < roots_upto(nodes, nodes.len()).len() && roots_upto(nodes, nodes.len())[w]
                == roots[j];
        assert(roots_upto(nodes, nodes.len())[w] < nodes.len());
    }
    lemma_emit_list_nested(nodes, order, roots, roots.len(), 0, nodes.len());
}

proof fn lemma_seq_less_asymmetric(x: Seq<char>, y: Seq<char>)
    requires
        seq_less(x, y),
    ensures
        !seq_less(y, x),
{
    let k1 = choose|k: int|
        #![trigger x.take(k), y.take(k)]
        0 <= k <= x.len() && k <= y.len() && x.take(k) == y.take(k) && ((k == x.len() && k
            < y.len()) || (k < x.len() && k < y.len() && (x[k] as u32) < (y[k] as u32)));
    if seq_less(y, x) {
        let k2 = choose|k: int|
            #![trigger y.take(k), x.take(k)]
            0 <= k <= y.len() && k <= x.len() && y.take(k) == x.take(k) && ((k == y.len() && k
                < x.len()) || (k < y.len() && k < x.len() && (y[k] as u32) < (x[k] as u32)));
        if k1 < k2 {
            assert(x.take(k2)[k1] == y.take(k2)[k1]);
        } else if k2 < k1 {
            assert(x.take(k1)[k2] == y.take(k1)[k2]);
        }
    }
}

proof fn lemma_precedes_asymmetric(nodes: Seq<ProcessTreeNode>, order: SortOrder, a: usize, b: usize)
    requires
        precedes(nodes, order, a, b),
    ensures
        !precedes(nodes, order, b, a),
{
    if order == SortOrder::Name {
        let x = nodes[a as int].process_name@;
        let y = nodes[b as int].process_name@;
        if seq_less(x, y) {
            lemma_seq_less_asymmetric(x, y);
        }
        if seq_less(y, x) {
            lemma_seq_less_asymmetric(y, x);
        }
    }
}

/// No adjacent pair of `s` is out of sibling order.
pub open spec fn in_sibling_order(nodes: Seq<ProcessTreeNode>, order: SortOrder, s: Seq<usize>) -> bool {
    forall|i: int, j: int|
        0 <= i && j == i + 1 && j < s.len() ==> !precedes(nodes, order, #[trigger] s[j], #[trigger] s[i])
}

proof fn lemma_insert_keeps_order(nodes: Seq<ProcessTreeNode>, order: SortOrder, x: usize, s: Seq<usize>)
    requires
        in_sibling_order(nodes, order, s),
    ensures
        in_sibling_order(nodes, order, insert_ordered(nodes, order, x, s)),
        insert_ordered(nodes, order, x, s).len() == s.len() + 1,
        insert_ordered(nodes, order, x, s).last() == x || (s.len() > 0 && insert_ordered(
            nodes,
            order,
            x,
            s,
        ).last() == s.last()),
    decreases s.len(),
{
    let r = insert_ordered(nodes, order, x, s);
    if s.len() == 0 {
    } else if precedes(nodes, order, x, s.last()) {
        let t = s.drop_last();
        assert forall|i: int, j: int| 0 <= i && j == i + 1 && j < t.len() implies !precedes(
            nodes,
            order,
            #[trigger] t[j],
            #[trigger] t[i],
        ) by {
            assert(t[i] == s[i] && t[j] == s[j]);
        }
        lemma_insert_keeps_order(nodes, order, x, t);
        lemma_precedes_asymmetric(nodes, order, x, s.last());
        let rt = insert_ordered(nodes, order, x, t);
        assert(r == rt.push(s.last()));
        assert forall|i: int, j: int| 0 <= i && j == i + 1 && j < r.len() implies !precedes(
            nodes,
            order,
            #[trigger] r[j],
            #[trigger] r[i],
        ) by {
            if j < rt.len() {
                assert(r[i] == rt[i] && r[j] == rt[j]);
            } else {
                assert(r[i] == rt.last());
                if rt.last() != x {
                    assert(rt.last() == t.last());
                    assert(t.last() == s[s.len() - 2]);
                }
            }
        }
    } else {
        assert(r == s.push(x));
        assert forall|i: int, j: int| 0 <= i && j == i + 1 && j < r.len() implies !precedes(
            nodes,
            order,
            #[trigger] r[j],
            #[trigger] r[i],
        ) by {
            if j < s.len() {
                assert(r[i] == s[i] && r[j] == s[j]);
            }
        }
    }
}

proof fn lemma_insert_key_class(
    nodes: Seq<ProcessTreeNode>,
    order: SortOrder,
    x: usize,
    s: Seq<usize>,
    k: usize,
)
    ensures
        key_class(nodes, order, insert_ordered(nodes, order, x, s), k) == if same_key(
            nodes,
            order,
            x,
            k,
        ) {
            key_class(nodes, order, s, k).push(x)
        } else {
            key_class(nodes, order, s, k)
        },
        insert_ordered(nodes, order, x, s).to_multiset() == s.to_multiset().insert(x),
    decreases s.len(),
{
    broadcast use vstd::seq_lib::group_to_multiset_ensures;

    let goal = if same_key(nodes, order, x, k) {
        key_class(nodes, order, s, k).push(x)
    } else {
        key_class(nodes, order, s, k)
    };
    if s.len() == 0 {
        assert(seq![x] == Seq::<usize>::empty().push(x));
        assert(seq![x].drop_last() =~= s);
        assert(seq![x].last() == x);
        assert(key_class(nodes, order, seq![x].drop_last(), k) == s);
        assert(key_class(nodes, order, s, k) == s);
        assert(key_class(nodes, order, seq![x], k) =~= goal);
    } else if precedes(nodes, order, x, s.last()) {
        let t = s.drop_last();
        lemma_insert_key_class(nodes, order, x, t, k);
        let rt = insert_ordered(nodes, order, x, t);
        assert(rt.push(s.last()).drop_last() =~= rt);
        assert(t.push(s.last()) =~= s);
        let r = insert_ordered(nodes, order, x, s);
        assert(r == rt.push(s.last()));
        assert(key_class(nodes, order, r, k) == if same_key(nodes, order, s.last(), k) {
            key_class(nodes, order, rt, k).push(s.last())
        } else {
            key_class(nodes, order, rt, k)
        });
        assert(key_class(nodes, order, s, k) == if same_key(nodes, order, s.last(), k) {
            key_class(nodes, order, t, k).push(s.last())
        } else {
            key_class(nodes, order, t, k)
        });
        if same_key(nodes, order, x, k) && same_key(nodes, order, s.last(), k) {
            if order == SortOrder::Name {
                let n = nodes[x as int].process_name@;
                lemma_seq_less_asymmetric(n, n);
            }
        }
        assert(key_class(nodes, order, r, k) =~= goal);
    } else {
        assert(s.push(x).drop_last() =~= s);
        assert(insert_ordered(nodes, order, x, s) == s.push(x));
        assert(key_class(nodes, order, s.push(x), k) =~= goal);
    }
}

/// Sorting siblings keeps every entry, as often as it occurs.
pub proof fn lemma_siblings_permuted(nodes: Seq<ProcessTreeNode>, order: SortOrder, s: Seq<usize>)
    ensures
        sort_ordered(nodes, order, s).to_multiset() == s.to_multiset(),
    decreases s.len(),
{
    broadcast use vstd::seq_lib::group_to_multiset_ensures;

    if s.len() > 0 {
        lemma_siblings_permuted(nodes, order, s.drop_last());
        lemma_insert_key_class(nodes, order, s.last(), sort_ordered(nodes, order, s.drop_last()), s.last());
        assert(s.drop_last().push(s.last()) =~= s);
    }
}

/// Sorting siblings is stable: the entries that share any one key keep the
/// order they had in `s`.
pub proof fn lemma_siblings_stable(nodes: Seq<ProcessTreeNode>, order: SortOrder, s: Seq<usize>, k: usize)
    ensures
        key_class(nodes, order, sort_ordered(nodes, order, s), k) == key_class(nodes, order, s, k),
    decreases s.len(),
{
    if s.len() > 0 {
        lemma_siblings_stable(nodes, order, s.drop_last(), k);
        lemma_insert_key_class(nodes, order, s.last(), sort_ordered(nodes, order, s.drop_last()), k);
    }
}

/// Siblings are listed in key order: no entry of a sibling list comes right
/// after one that it precedes by the chosen key (equal keys keep their input
/// order).
pub proof fn lemma_siblings_in_order(nodes: Seq<ProcessTreeNode>, order: SortOrder, s: Seq<usize>)
    ensures
        in_sibling_order(nodes, order, sort_ordered(nodes, order, s)),
    decreases s.len(),
{
    if s.len() > 0 {
        lemma_siblings_in_order(nodes, order, s.drop_last());
        lemma_insert_keeps_order(nodes, order, s.last(), sort_ordered(nodes, order, s.drop_last()));
    }
}

/// Fillers for the ancestor levels whose flags are `flags`: a vertical bar
/// where that ancestor has later siblings, blank space otherwise.
pub open spec fn ancestor_fill(flags: Seq<bool>) -> Seq<char>
    decreases flags.len(),
{
    if flags.len() == 0 {
        Seq::empty()
    } else {
        ancestor_fill(flags.drop_last()) + if flags.last() {
            TREE_VERTICAL@
        } else {
            TREE_SPACE@
        }
    }
}

/// The drawing prefix of an entry at `depth`: nothing for a root; otherwise
/// one filler per ancestor level below the top (as far as `prefix_stack`
/// reaches), then the connector for a last or a non-last child.
pub open spec fn tree_prefix(depth: nat, is_last_child: bool, prefix_stack: Seq<bool>) -> Seq<char> {
    if depth == 0 {
        Seq::empty()
    } else {
        let levels = if depth - 1 <= prefix_stack.len() {
            (depth - 1) as int
        } else {
            prefix_stack.len() as int
        };
        ancestor_fill(prefix_stack.take(levels)) + if is_last_child {
            TREE_LAST@
        } else {
            TREE_BRANCH@
        }
    }
}

/// The drawing prefix of a tree entry; `prefix_stack[k]` tells whether the
/// ancestor at level `k + 1` has later siblings.
pub fn generate_tree_prefix(depth: usize, is_last_child: bool, prefix_stack: &[bool]) -> (r: String)
    ensures
        r@ == tree_prefix(depth as nat, is_last_child, prefix_stack@),
{
    let mut prefix = String::new();
    if depth == 0 {
        return prefix;
    }
    let levels = if depth - 1 <= prefix_stack.len() {
        depth - 1
    } else {
        prefix_stack.len()
    };
    let mut k: usize = 0;
    while k < levels
        invariant
            k <= levels,
            levels <= prefix_stack.len(),
            prefix@ == ancestor_fill(prefix_stack@.take(k as int)),
        decreases levels - k,
    {
        assert(prefix_stack@.take(k + 1).drop_last() =~= prefix_stack@.take(k as int));
        if prefix_stack[k] {
            prefix.append(TREE_VERTICAL);
        } else {
            prefix.append(TREE_SPACE);
        }
        k = k + 1;
    }
    if is_last_child {
        prefix.append(TREE_LAST);
    } else {
        prefix.append(TREE_BRANCH);
    }
    prefix
}

/// Whether the latest entry before position `k` at depth `level` has later
/// siblings (false if there is none): whether that level's line continues.
pub open spec fn level_continues(rows: Seq<ProcessTreeNode>, k: int, level: int) -> bool
    decreases k,
{
    if k <= 0 {
        false
    } else if rows[k - 1].depth == level {
        !rows[k - 1].is_last_child
    } else {
        level_continues(rows, k - 1, level)
    }
}

/// The ancestor flags of entry `k` of a display listing, for levels 1 up to
/// its depth less one.
pub open spec fn ancestor_flags(rows: Seq<ProcessTreeNode>, k: int) -> Seq<bool> {
    let d = rows[k].depth as int;
    let n = if d > 0 {
        d - 1
    } else {
        0
    };
    Seq::new(n as nat, |q: int| level_continues(rows, k, q + 1))
}

fn continues_at(rows: &[ProcessTreeNode], k: usize, level: usize) -> (r: bool)
    requires
        k <= rows.len(),
    ensures
        r == level_continues(rows@, k as int, level as int),
{
    let mut j: usize = k;
    while j > 0 && rows[j - 1].depth != level
        invariant
            j <= k <= rows.len(),
            level_continues(rows@, j as int, level as int) == level_continues(
                rows@,
                k as int,
                level as int,
            ),
        decreases j,
    {
        j = j - 1;
    }
    if j == 0 {
        false
    } else {
        !rows[j - 1].is_last_child
    }
}

/// The drawing prefix of entry `k` of a display listing such as
/// `build_process_tree` returns: each ancestor level continues where the
/// latest earlier entry at that level has later siblings.
pub fn row_prefix(rows: &[ProcessTreeNode], k: usize) -> (r: String)
    requires
        k < rows.len(),
    ensures
        r@ == tree_prefix(rows@[k as int].depth as nat, rows@[k as int].is_last_child, ancestor_flags(rows@, k as int)),
{
    let depth = rows[k].depth;
    let n = if depth > 0 {
        depth - 1
    } else {
        0
    };
    let mut flags: Vec<bool> = Vec::new();
    let mut q: usize = 0;
    while q < n
        invariant
            q <= n,
            k < rows.len(),
            n == (if rows@[k as int].depth > 0 { rows@[k as int].depth - 1 } else { 0 }),
            flags@ == Seq::new(q as nat, |i: int| level_continues(rows@, k as int, i + 1)),
        decreases n - q,
    {
        flags.push(continues_at(rows, k, q + 1));
        q = q + 1;
        assert(flags@ =~= Seq::new(q as nat, |i: int| level_continues(rows@, k as int, i + 1)));
    }
    assert(flags@ =~= ancestor_flags(rows@, k as int));
    generate_tree_prefix(depth, rows[k].is_last_child, flags.as_slice())
}

} // verus!
