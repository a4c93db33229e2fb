//! Ordering keys for process lists, and the flat process listing.

use vstd::prelude::*;
use crate::analyze::{series_min, series_stats, series_sum};
use crate::graph::series_max;
use crate::text::{chars_contain, chars_of, seq_contains};
use crate::tree::{sort_ordered, sort_siblings, ProcessTreeNode};

verus! {

/// Key by which a list of processes (or a list of siblings) is ordered.
#[derive(Clone, Copy, Debug, PartialEq, Eq, Structural)]
pub enum SortOrder {
    /// Resident memory, largest first.
    Memory,
    /// CPU usage, largest first.
    Cpu,
    /// Process id, smallest first.
    Pid,
    /// Process name, in character order.
    Name,
}

/// Bytes in a mebibyte.
pub const BYTES_PER_MB: u64 = 1048576;

/// `p`'s name contains `name` and it uses at least `min_memory_mb` mebibytes.
pub open spec fn listed(p: ProcessTreeNode, name: Seq<char>, min_memory_mb: Option<u64>) -> bool {
    &&& seq_contains(p.process_name@, name)
    &&& (min_memory_mb matches Some(mb) ==> p.memory_bytes >= mb * BYTES_PER_MB)
}

/// The entries of `s` that are listed, in their order.
pub open spec fn filter_listed(s: Seq<ProcessTreeNode>, name: Seq<char>, min_memory_mb: Option<u64>) -> Seq<
    ProcessTreeNode,
>
    decreases s.len(),
{
    if s.len() == 0 {
        s
    } else {
        let p = filter_listed(s.drop_last(), name, min_memory_mb);
        if listed(s.last(), name, min_memory_mb) {
            p.push(s.last())
        } else {
            p
        }
    }
}

/// The listed entries of `s`, ordered by `order` (stable: equal keys keep
/// their order in `s`).
pub open spec fn listing(
    s: Seq<ProcessTreeNode>,
    name: Seq<char>,
    min_memory_mb: Option<u64>,
    order: SortOrder,
) -> Seq<ProcessTreeNode> {
    let f = filter_listed(s, name, min_memory_mb);
    sort_ordered(f, order, Seq::new(f.len(), |i: int| i as usize)).map_values(|i: usize| f[i as int])
}

/// The processes whose name contains `name` and that use at least
/// `min_memory_mb` mebibytes (when given), ordered by `sort_order`.
pub fn select_processes(
    processes: &[ProcessTreeNode],
    name: &str,
    min_memory_mb: Option<u64>,
    sort_order: &SortOrder,
) -> (r: Vec<ProcessTreeNode>)
    ensures
        r@ == listing(processes@, name@, min_memory_mb, *sort_order),
{
    let needle = chars_of(name);
    let mut kept: Vec<ProcessTreeNode> = Vec::new();
    let mut i: usize = 0;
    while i < processes.len()
        invariant
            i <= processes.len(),
            needle@ == name@,
            kept@ == filter_listed(processes@.take(i as int), name@, min_memory_mb),
        decreases processes.len() - i,
    {
        let p = &processes[i];
        let mut keep = chars_contain(&chars_of(p.process_name.as_str()), &needle);
        if let Some(mb) = min_memory_mb {
            if (p.memory_bytes as u128) < (mb as u128) * (BYTES_PER_MB as u128) {
                keep = false;
            }
        }
        proof {
            assert(processes@.take(i + 1).drop_last() =~= processes@.take(i as int));
        }
        if keep {
            kept.push(p.placed_at(p.depth, p.is_last_child));
        }
        i = i + 1;
    }
    assert(processes@.take(processes.len() as int) =~= processes@);
    let mut names: Vec<Vec<char>> = Vec::new();
    let mut ids: Vec<usize> = Vec::new();
    let mut k: usize = 0;
    while k < kept.len()
        invariant
            k <= kept.len(),
            names.len() == k,
            forall|q: int| 0 <= q < k ==> names@[q]@ == kept@[q].process_name@,
            ids@ == Seq::new(k as nat, |q: int| q as usize),
        decreases kept.len() - k,
    {
        names.push(chars_of(kept[k].process_name.as_str()));
        ids.push(k);
        k = k + 1;
        assert(ids@ =~= Seq::new(k as nat, |q: int| q as usize));
    }
    sort_siblings(&mut ids, kept.as_slice(), &names, sort_order);
    let mut out: Vec<ProcessTreeNode> = Vec::new();
    let mut j: usize = 0;
    while j < ids.len()
        invariant
            j <= ids.len(),
            forall|q: int| 0 <= q < ids.len() ==> ids@[q] < kept.len(),
            out@ == ids@.take(j as int).map_values(|q: usize| kept@[q as int]),
        decreases ids.len() - j,
    {
        let p = &kept[ids[j]];
        out.push(p.placed_at(p.depth, p.is_last_child));
        j = j + 1;
        assert(out@ =~= ids@.take(j as int).map_values(|q: usize| kept@[q as int]));
    }
    assert(ids@.take(ids.len() as int) =~= ids@);
    out
}

/// Totals of a process listing.
pub struct ListingSummary {
    pub count: usize,
    pub total_memory: u128,
    /// Hundredths of a percent.
    pub total_cpu: u128,
    pub min_memory: u64,
    /// Mean memory, rounded down.
    pub avg_memory: u128,
    pub max_memory: u64,
}

/// Memory of each entry.
pub open spec fn listed_memory(s: Seq<ProcessTreeNode>) -> Seq<u64> {
    s.map_values(|p: ProcessTreeNode| p.memory_bytes)
}

/// CPU usage of each entry.
pub open spec fn listed_cpu(s: Seq<ProcessTreeNode>) -> Seq<u64> {
    s.map_values(|p: ProcessTreeNode| p.cpu_usage)
}

/// Count, memory and CPU totals, and smallest, mean (rounded down) and
/// largest memory of `processes`; all 0 for an empty list.
pub fn summarize_processes(processes: &[ProcessTreeNode]) -> (r: ListingSummary)
    ensures
        r.count == processes.len(),
        r.total_memory == series_sum(listed_memory(processes@)),
        r.total_cpu == series_sum(listed_cpu(processes@)),
        r.min_memory == series_min(listed_memory(processes@)),
        r.max_memory == series_max(listed_memory(processes@)),
        r.avg_memory == (if processes.len() == 0 {
            0
        } else {
            series_sum(listed_memory(processes@)) / (processes.len() as int)
        }),
{
    let n = processes.len();
    if n == 0 {
        assert(listed_memory(processes@) =~= Seq::<u64>::empty());
        assert(listed_cpu(processes@) =~= Seq::<u64>::empty());
        return ListingSummary {
            count: 0,
            total_memory: 0,
            total_cpu: 0,
            min_memory: 0,
            avg_memory: 0,
            max_memory: 0,
        };
    }
    let mut mem: Vec<u64> = Vec::new();
    let mut cpu: Vec<u64> = Vec::new();
    let mut i: usize = 0;
    while i < n
        invariant
            i <= n,
            n == processes.len(),
            mem@ == listed_memory(processes@).take(i as int),
            cpu@ == listed_cpu(processes@).take(i as int),
        decreases n - i,
    {
        mem.push(processes[i].memory_bytes);
        cpu.push(processes[i].cpu_usage);
        i = i + 1;
        assert(mem@ =~= listed_memory(processes@).take(i as int));
        assert(cpu@ =~= listed_cpu(processes@).take(i as int));
    }
    assert(mem@ =~= listed_memory(processes@));
    assert(cpu@ =~= listed_cpu(processes@));
    let (lo, hi, total, _) = series_stats(&mem);
    let (_, _, total_cpu, _) = series_stats(&cpu);
    ListingSummary {
        count: n,
        total_memory: total,
        total_cpu,
        min_memory: lo,
        avg_memory: total / (n as u128),
        max_memory: hi,
    }
}

} // verus!
