//! Fixed-capacity window of per-tick totals for trend displays.

use vstd::prelude::*;
use std::collections::VecDeque;
use crate::model::{ProcessSnapshot, Timestamp};

verus! {

/// `s` after appending `e` to a window holding at most `cap` entries: the
/// oldest entry leaves once the window would exceed `cap`.
pub open spec fn slide<A>(cap: nat, s: Seq<A>, e: A) -> Seq<A> {
    if s.len() + 1 > cap {
        s.push(e).drop_first()
    } else {
        s.push(e)
    }
}

/// `s` after appending each of `items` in turn.
pub open spec fn slide_all<A>(cap: nat, s: Seq<A>, items: Seq<A>) -> Seq<A>
    decreases items.len(),
{
    if items.len() == 0 {
        s
    } else {
        slide(cap, slide_all(cap, s, items.drop_last()), items.last())
    }
}

/// Sum of the resident memory of `s`.
pub open spec fn total_memory(s: Seq<ProcessSnapshot>) -> int
    decreases s.len(),
{
    if s.len() == 0 {
        0
    } else {
        total_memory(s.drop_last()) + s.last().memory_bytes
    }
}

/// Sum of the CPU usage of `s`, in hundredths of a percent.
pub open spec fn total_cpu(s: Seq<ProcessSnapshot>) -> int
    decreases s.len(),
{
    if s.len() == 0 {
        0
    } else {
        total_cpu(s.drop_last()) + s.last().cpu_usage
    }
}

/// The largest value of `s`, or 0 for an empty `s`.
pub open spec fn series_max(s: Seq<u64>) -> u64
    decreases s.len(),
{
    if s.len() == 0 {
        0
    } else if series_max(s.drop_last()) >= s.last() {
        series_max(s.drop_last())
    } else {
        s.last()
    }
}

proof fn lemma_totals_prefix(s: Seq<ProcessSnapshot>, i: int)
    requires
        0 <= i <= s.len(),
    ensures
        total_memory(s.take(i)) <= total_memory(s),
        total_cpu(s.take(i)) <= total_cpu(s),
    decreases s.len() - i,
{
    if i < s.len() {
        lemma_totals_prefix(s, i + 1);
        assert(s.take(i + 1).drop_last() =~= s.take(i));
    } else {
        assert(s.take(i) =~= s);
    }
}

/// Rolling window of per-tick totals: timestamp, total memory in bytes and
/// total CPU usage in hundredths of a percent.
pub struct GraphData {
    timestamps: VecDeque<Timestamp>,
    memory_data: VecDeque<u64>,
    cpu_data: VecDeque<u64>,
    max_capacity: usize,
}

impl GraphData {
    /// The three series have one entry per tick and fit the capacity.
    pub closed spec fn wf(self) -> bool {
        &&& self.memory_data@.len() == self.timestamps@.len()
        &&& self.cpu_data@.len() == self.timestamps@.len()
        &&& self.timestamps@.len() <= self.max_capacity
    }

    /// One entry per tick in each series, no more entries than the capacity.
    pub open spec fn aligned(self) -> bool {
        &&& self.memory_series().len() == self.time_series().len()
        &&& self.cpu_series().len() == self.time_series().len()
        &&& self.time_series().len() <= self.capacity()
    }

    /// Timestamps of the entries, oldest first.
    pub closed spec fn time_series(self) -> Seq<Timestamp> {
        self.timestamps@
    }

    /// Total memory of the entries, oldest first.
    pub closed spec fn memory_series(self) -> Seq<u64> {
        self.memory_data@
    }

    /// Total CPU usage (hundredths of a percent) of the entries, oldest first.
    pub closed spec fn cpu_series(self) -> Seq<u64> {
        self.cpu_data@
    }

    /// Most entries the window keeps.
    pub closed spec fn capacity(self) -> nat {
        self.max_capacity as nat
    }

    /// An empty window keeping at most `capacity` entries.
    pub fn new(capacity: usize) -> (r: GraphData)
        ensures
            r.wf(),
            r.aligned(),
            r.time_series() == Seq::<Timestamp>::empty(),
            r.memory_series() == Seq::<u64>::empty(),
            r.cpu_series() == Seq::<u64>::empty(),
            r.capacity() == capacity,
    {
        GraphData {
            timestamps: VecDeque::new(),
            memory_data: VecDeque::new(),
            cpu_data: VecDeque::new(),
            max_capacity: capacity,
        }
    }

    /// Appends one entry for a tick's snapshots (all taken at one instant):
    /// their first timestamp, total memory and total CPU usage. The oldest
    /// entry leaves once the window exceeds its capacity. An empty tick
    /// changes nothing.
    pub fn push_snapshot(&mut self, snapshots: &[ProcessSnapshot])
        requires
            old(self).wf(),
            total_memory(snapshots@) <= u64::MAX,
            total_cpu(snapshots@) <= u64::MAX,
        ensures
            final(self).wf(),
            final(self).aligned(),
            final(self).capacity() == old(self).capacity(),
            snapshots.len() == 0 ==> final(self).time_series() == old(self).time_series()
                && final(self).memory_series() == old(self).memory_series()
                && final(self).cpu_series() == old(self).cpu_series(),
            snapshots.len() > 0 ==> final(self).time_series() == slide(
                old(self).capacity(),
                old(self).time_series(),
                snapshots@[0].timestamp,
            ) && final(self).memory_series() == slide(
                old(self).capacity(),
                old(self).memory_series(),
                total_memory(snapshots@) as u64,
            ) && final(self).cpu_series() == slide(
                old(self).capacity(),
                old(self).cpu_series(),
                total_cpu(snapshots@) as u64,
            ),
    {
        if snapshots.len() == 0 {
            return;
        }
        let mut memory: u64 = 0;
        let mut cpu: u64 = 0;
        let mut i: usize = 0;
        while i < snapshots.len()
            invariant
                i <= snapshots.len(),
                total_memory(snapshots@) <= u64::MAX,
                total_cpu(snapshots@) <= u64::MAX,
                memory == total_memory(snapshots@.take(i as int)),
                cpu == total_cpu(snapshots@.take(i as int)),
            decreases snapshots.len() - i,
        {
            proof {
                lemma_totals_prefix(snapshots@, i + 1);
                assert(snapshots@.take(i + 1).drop_last() =~= snapshots@.take(i as int));
            }
            memory = memory + snapshots[i].memory_bytes;
            cpu = cpu + snapshots[i].cpu_usage;
            i = i + 1;
        }
        assert(snapshots@.take(snapshots.len() as int) =~= snapshots@);
        let timestamp = snapshots[0].timestamp;
        self.timestamps.push_back(timestamp);
        self.memory_data.push_back(memory);
        self.cpu_data.push_back(cpu);
        if self.timestamps.len() > self.max_capacity {
            self.timestamps.pop_front();
            self.memory_data.pop_front();
            self.cpu_data.pop_front();
        }
    }

    /// The total-memory series, oldest first.
    pub fn get_memory_sparkline_data(&self) -> (r: Vec<u64>)
        ensures
            r@ == self.memory_series(),
    {
        let mut r: Vec<u64> = Vec::new();
        let mut i: usize = 0;
        while i < self.memory_data.len()
            invariant
                i <= self.memory_data@.len(),
                r@ == self.memory_data@.take(i as int),
            decreases self.memory_data@.len() - i,
        {
            r.push(self.memory_data[i]);
            i = i + 1;
            assert(r@ =~= self.memory_data@.take(i as int));
        }
        assert(r@ =~= self.memory_data@);
        r
    }

    /// The total-CPU series in whole percent (fractions dropped), oldest first.
    pub fn get_cpu_sparkline_data(&self) -> (r: Vec<u64>)
        ensures
            r@ == self.cpu_series().map_values(|c: u64| c / 100),
    {
        let mut r: Vec<u64> = Vec::new();
        let mut i: usize = 0;
        while i < self.cpu_data.len()
            invariant
                i <= self.cpu_data@.len(),
                r@ == self.cpu_data@.take(i as int).map_values(|c: u64| c / 100),
            decreases self.cpu_data@.len() - i,
        {
            r.push(self.cpu_data[i] / 100);
            i = i + 1;
            assert(r@ =~= self.cpu_data@.take(i as int).map_values(|c: u64| c / 100));
        }
        assert(self.cpu_data@.take(i as int) =~= self.cpu_data@);
        r
    }

    /// The largest total memory in the window, 0 when it is empty.
    pub fn get_max_memory(&self) -> (r: u64)
        ensures
            r == series_max(self.memory_series()),
    {
        max_of(&self.memory_data)
    }

    /// The largest total CPU usage (hundredths of a percent) in the window, 0
    /// when it is empty.
    pub fn get_max_cpu(&self) -> (r: u64)
        ensures
            r == series_max(self.cpu_series()),
    {
        max_of(&self.cpu_data)
    }

    /// Number of entries.
    pub fn len(&self) -> (r: usize)
        requires
            self.wf(),
        ensures
            r == self.time_series().len(),
    {
        self.timestamps.len()
    }

    /// Whether the window holds no entry.
    pub fn is_empty(&self) -> (r: bool)
        requires
            self.wf(),
        ensures
            r == (self.time_series().len() == 0),
    {
        self.timestamps.len() == 0
    }
}

fn max_of(data: &VecDeque<u64>) -> (r: u64)
    ensures
        r == series_max(data@),
{
    let mut m: u64 = 0;
    let mut i: usize = 0;
    while i < data.len()
        invariant
            i <= data@.len(),
            m == series_max(data@.take(i as int)),
        decreases data@.len() - i,
    {
        assert(data@.take(i + 1).drop_last() =~= data@.take(i as int));
        if data[i] > m {
            m = data[i];
        }
        i = i + 1;
    }
    assert(data@.take(i as int) =~= data@);
    m
}

/// A window of capacity `cap` fed `items` one at a time, from empty, holds
/// the latest `cap` of them in order of arrival (all of them while there are
/// no more than `cap`): each push past capacity evicts exactly the oldest.
pub proof fn lemma_window_keeps_latest<A>(cap: nat, items: Seq<A>)
    requires
        cap > 0,
    ensures
        slide_all(cap, Seq::empty(), items) == (if items.len() > cap {
            items.skip(items.len() - cap)
        } else {
            items
        }),
    decreases items.len(),
{
    if items.len() > 0 {
        let prev = items.drop_last();
        lemma_window_keeps_latest(cap, prev);
        if prev.len() >= cap {
            assert(prev.skip(prev.len() - cap).push(items.last()).drop_first() =~= items.skip(
                items.len() - cap,
            ));
        } else {
            assert(prev.push(items.last()) =~= items);
        }
    } else {
        assert(slide_all(cap, Seq::<A>::empty(), items) == Seq::<A>::empty());
        assert(items =~= Seq::<A>::empty());
    }
}

} // verus!
