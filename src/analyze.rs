//! Summary statistics over a time-ordered set of stored snapshots.

use vstd::prelude::*;
use crate::formatter::{bytes_text, format_bytes, format_percent, two_decimals_text};
use crate::graph::series_max;
use crate::history::{bad_time_filter, name_view, selection, time_filter, ProcessHistory, StoredRow};
use crate::model::{ProcessSnapshot, Timestamp};

verus! {

/// First and last timestamp of the analysed records, as RFC 3339 text.
pub struct TimeRange {
    pub from: String,
    pub to: String,
}

/// Resident memory over all records, in bytes.
pub struct MemoryStats {
    pub min_bytes: u64,
    pub max_bytes: u64,
    /// Sum over all records; the mean is this over the record count.
    pub total_bytes: u128,
}

/// CPU usage over all records, in hundredths of a percent.
pub struct CpuStats {
    pub min_percent: u64,
    pub max_percent: u64,
    /// Sum over all records; the mean is this over the record count.
    pub total_percent: u128,
}

/// Distinct processes seen per sampling instant.
pub struct ProcessCountStats {
    pub min: u64,
    pub max: u64,
    /// Sum over all instants; the mean is this over `ticks`.
    pub total: u128,
    /// Number of distinct timestamps.
    pub ticks: usize,
}

/// The record at which a metric peaked.
pub struct PeakDetail {
    /// "Memory" or "CPU".
    pub metric: String,
    /// The peak value as display text.
    pub value: String,
    /// RFC 3339 text of the record's timestamp.
    pub timestamp: String,
    pub pid: u32,
    pub process_name: String,
}

/// Everything a report shows about a set of records.
pub struct AnalysisResult {
    pub time_range: TimeRange,
    pub memory_stats: MemoryStats,
    pub cpu_stats: CpuStats,
    pub process_count: ProcessCountStats,
    pub total_records: usize,
    /// The memory peak, then the CPU peak.
    pub peak_details: Vec<PeakDetail>,
}

/// How a report is written out.
#[derive(Clone, Copy, Debug, PartialEq, Eq, Structural)]
pub enum OutputFormat {
    Table,
    Json,
}

/// Why an analysis produced no report.
#[derive(Clone, Copy, Debug, PartialEq, Eq, Structural)]
pub enum AnalyzeError {
    /// A time filter is not an RFC 3339 timestamp.
    InvalidTimestamp,
    /// The store could not be opened.
    StorageUnavailable,
    /// The store could not be read, or held a malformed record.
    QueryError,
    /// No stored record matches the filters.
    NoMatchingRecords,
    /// Statistics were asked of no records.
    EmptyInput,
}

/// Smallest value of `s` (0 for an empty `s`).
pub open spec fn series_min(s: Seq<u64>) -> u64
    decreases s.len(),
{
    if s.len() == 0 {
        0
    } else if s.len() == 1 {
        s[0]
    } else if series_min(s.drop_last()) <= s.last() {
        series_min(s.drop_last())
    } else {
        s.last()
    }
}

/// Sum of `s`.
pub open spec fn series_sum(s: Seq<u64>) -> int
    decreases s.len(),
{
    if s.len() == 0 {
        0
    } else {
        series_sum(s.drop_last()) + s.last()
    }
}

/// Index of the first largest value of `s`.
pub open spec fn first_max_index(s: Seq<u64>) -> int
    decreases s.len(),
{
    if s.len() <= 1 {
        0
    } else if s.last() > s[first_max_index(s.drop_last())] {
        s.len() - 1
    } else {
        first_max_index(s.drop_last())
    }
}

/// Memory of each record.
pub open spec fn memory_values(s: Seq<ProcessSnapshot>) -> Seq<u64> {
    s.map_values(|x: ProcessSnapshot| x.memory_bytes)
}

/// CPU usage of each record.
pub open spec fn cpu_values(s: Seq<ProcessSnapshot>) -> Seq<u64> {
    s.map_values(|x: ProcessSnapshot| x.cpu_usage)
}

/// No record before `k` has `k`'s timestamp.
pub open spec fn first_at_time(s: Seq<ProcessSnapshot>, k: int) -> bool {
    forall|j: int| 0 <= j < k ==> #[trigger] s[j].timestamp != s[k].timestamp
}

/// No record before `k` has both `k`'s timestamp and `k`'s process id.
pub open spec fn first_of_pair(s: Seq<ProcessSnapshot>, k: int) -> bool {
    forall|j: int|
        0 <= j < k ==> !(#[trigger] s[j].timestamp == s[k].timestamp && s[j].pid == s[k].pid)
}

/// Number of distinct process ids among the records below `m` taken at `t`.
pub open spec fn pids_at(s: Seq<ProcessSnapshot>, t: Timestamp, m: nat) -> nat
    decreases m,
{
    if m == 0 {
        0
    } else {
        pids_at(s, t, (m - 1) as nat) + if s[m - 1].timestamp == t && first_of_pair(s, m - 1) {
            1nat
        } else {
            0nat
        }
    }
}

/// The distinct timestamps among the records below `m`, in order of first
/// appearance.
pub open spec fn ticks_upto(s: Seq<ProcessSnapshot>, m: nat) -> Seq<Timestamp>
    decreases m,
{
    if m == 0 {
        Seq::empty()
    } else if first_at_time(s, m - 1) {
        ticks_upto(s, (m - 1) as nat).push(s[m - 1].timestamp)
    } else {
        ticks_upto(s, (m - 1) as nat)
    }
}

/// For each distinct timestamp, the number of distinct processes seen at it.
pub open spec fn tick_counts(s: Seq<ProcessSnapshot>) -> Seq<u64> {
    ticks_upto(s, s.len()).map_values(|t: Timestamp| pids_at(s, t, s.len()) as u64)
}

proof fn lemma_sum_bound(s: Seq<u64>)
    ensures
        0 <= series_sum(s) <= s.len() * u64::MAX,
    decreases s.len(),
{
    if s.len() > 0 {
        lemma_sum_bound(s.drop_last());
    }
}

/// Smallest, largest, sum and index of the first largest value of `v`.
pub(crate) fn series_stats(v: &Vec<u64>) -> (r: (u64, u64, u128, usize))
    requires
        v.len() > 0,
    ensures
        r.0 == series_min(v@),
        r.1 == series_max(v@),
        r.2 == series_sum(v@),
        r.3 == first_max_index(v@),
        r.3 < v.len(),
{
    let mut lo: u64 = v[0];
    let mut hi: u64 = 0;
    let mut sum: u128 = 0;
    let mut at: usize = 0;
    let mut i: usize = 0;
    while i < v.len()
        invariant
            i <= v.len(),
            v.len() > 0,
            i > 0 ==> lo == series_min(v@.take(i as int)),
            i == 0 ==> lo == v@[0],
            hi == series_max(v@.take(i as int)),
            sum == series_sum(v@.take(i as int)),
            at == first_max_index(v@.take(i as int)),
            i > 0 ==> at < i && hi == v@[at as int],
            at == 0 || at < i,
        decreases v.len() - i,
    {
        let ghost t = v@.take(i + 1);
        assert(t.drop_last() =~= v@.take(i as int));
        proof {
            lemma_sum_bound(v@.take(i as int));
            assert(i * u64::MAX + u64::MAX < u128::MAX) by (nonlinear_arith)
                requires
                    i < v.len() <= usize::MAX,
            ;
        }
        let x = v[i];
        if i > 0 && x < lo {
            lo = x;
        }
        if i == 0 || x > hi {
            if i == 0 || x > v[at] {
                at = i;
            }
        }
        if x > hi {
            hi = x;
        }
        sum = sum + x as u128;
        i = i + 1;
    }
    assert(v@.take(v.len() as int) =~= v@);
    (lo, hi, sum, at)
}

/// Some entry of `ticks` is `t`.
spec fn tick_listed(ticks: Seq<Timestamp>, t: Timestamp) -> bool {
    exists|i: int| 0 <= i < ticks.len() && ticks[i] == t
}

/// Some record below `k` was taken at `t`.
spec fn seen_before(s: Seq<ProcessSnapshot>, t: Timestamp, k: int) -> bool {
    exists|j: int| 0 <= j < k && s[j].timestamp == t
}

proof fn lemma_pids_absent(s: Seq<ProcessSnapshot>, t: Timestamp, m: nat)
    requires
        m <= s.len(),
        forall|j: int| 0 <= j < m ==> #[trigger] s[j].timestamp != t,
    ensures
        pids_at(s, t, m) == 0,
    decreases m,
{
    if m > 0 {
        lemma_pids_absent(s, t, (m - 1) as nat);
    }
}

/// The distinct timestamps of `s` with the number of distinct processes seen
/// at each.
fn count_ticks(s: &[ProcessSnapshot]) -> (r: (Vec<Timestamp>, Vec<u64>))
    ensures
        r.0@ == ticks_upto(s@, s@.len()),
        r.1@ == tick_counts(s@),
        s.len() > 0 ==> r.0.len() > 0,
{
    let n = s.len();
    let mut ticks: Vec<Timestamp> = Vec::new();
    let mut counts: Vec<u64> = Vec::new();
    let mut k: usize = 0;
    while k < n
        invariant
            k <= n,
            n == s.len(),
            ticks@ == ticks_upto(s@, k as nat),
            counts.len() == ticks.len(),
            forall|i: int|
                0 <= i < ticks.len() ==> #[trigger] counts@[i] == pids_at(s@, ticks@[i], k as nat)
                    && counts@[i] <= k,
            forall|i: int, j: int| 0 <= i < j < ticks.len() ==> ticks@[i] != ticks@[j],
            forall|j: int| 0 <= j < k ==> #[trigger] tick_listed(ticks@, s@[j].timestamp),
            forall|i: int| 0 <= i < ticks.len() ==> #[trigger] seen_before(s@, ticks@[i], k as int),
        decreases n - k,
    {
        let t = s[k].timestamp;
        let pid = s[k].pid;
        let mut fresh = true;
        let mut j: usize = 0;
        while j < k
            invariant
                j <= k,
                k < n,
                n == s.len(),
                t == s@[k as int].timestamp,
                pid == s@[k as int].pid,
                fresh == (forall|q: int|
                    0 <= q < j ==> !(#[trigger] s@[q].timestamp == t && s@[q].pid == pid)),
            decreases k - j,
        {
            if s[j].timestamp == t && s[j].pid == pid {
                fresh = false;
            }
            j = j + 1;
        }
        let mut back: usize = ticks.len();
        while back > 0 && ticks[back - 1] != t
            invariant
                back <= ticks.len(),
                forall|q: int| back <= q < ticks.len() ==> #[trigger] ticks@[q] != t,
            decreases back,
        {
            back = back - 1;
        }
        let idx: usize = if back > 0 {
            back - 1
        } else {
            ticks.len()
        };
        let ghost old_ticks = ticks@;
        let ghost old_counts = counts@;
        let add: u64 = if fresh { 1 } else { 0 };
        if idx == ticks.len() {
            proof {
                assert forall|q: int| 0 <= q < k implies #[trigger] s@[q].timestamp != t by {
                    if s@[q].timestamp == t {
                        assert(tick_listed(old_ticks, s@[q].timestamp));
                        let i = choose|i: int| 0 <= i < old_ticks.len() && old_ticks[i] == t;
                    }
                }
                lemma_pids_absent(s@, t, k as nat);
            }
            ticks.push(t);
            counts.push(add);
        } else {
            proof {
                assert(seen_before(s@, old_ticks[idx as int], k as int));
                let q = choose|q: int| 0 <= q < k && s@[q].timestamp == t;
                assert(!first_at_time(s@, k as int));
            }
            counts.set(idx, counts[idx] + add);
        }
        proof {
            assert(ticks@ == ticks_upto(s@, (k + 1) as nat));
            assert forall|i: int| 0 <= i < ticks.len() implies #[trigger] counts@[i] == pids_at(
                s@,
                ticks@[i],
                (k + 1) as nat,
            ) && counts@[i] <= k + 1 by {
                if i < old_ticks.len() && i != idx {
                    assert(ticks@[i] == old_ticks[i]);
                    assert(counts@[i] == old_counts[i]);
                }
            }
            assert forall|j: int| 0 <= j < k + 1 implies #[trigger] tick_listed(
                ticks@,
                s@[j].timestamp,
            ) by {
                if j < k {
                    assert(tick_listed(old_ticks, s@[j].timestamp));
                    let i = choose|i: int|
                        0 <= i < old_ticks.len() && old_ticks[i] == s@[j].timestamp;
                    assert(ticks@[i] == old_ticks[i]);
                } else {
                    assert(ticks@[idx as int] == t);
                }
            }
            assert forall|i: int| 0 <= i < ticks.len() implies #[trigger] seen_before(
                s@,
                ticks@[i],
                k + 1,
            ) by {
                if i < old_ticks.len() {
                    assert(seen_before(s@, old_ticks[i], k as int));
                    let j = choose|j: int| 0 <= j < k && s@[j].timestamp == old_ticks[i];
                    assert(ticks@[i] == old_ticks[i]);
                } else {
                    assert(s@[k as int].timestamp == ticks@[i]);
                }
            }
        }
        k = k + 1;
    }
    assert(counts@ =~= tick_counts(s@));
    if n > 0 {
        assert(tick_listed(ticks@, s@[0].timestamp));
    }
    (ticks, counts)
}

/// The peak detail for record `x`, whose value text is `value`.
pub open spec fn peak_matches(d: PeakDetail, metric: Seq<char>, value: Seq<char>, x: ProcessSnapshot) -> bool {
    &&& d.metric@ == metric
    &&& d.value@ == value
    &&& d.timestamp@ == x.timestamp.text()
    &&& d.pid == x.pid
    &&& d.process_name@ == x.process_name@
}

/// `a` summarises the non-empty, time-ordered records `s`.
pub open spec fn summarises(a: AnalysisResult, s: Seq<ProcessSnapshot>) -> bool {
    let mem = memory_values(s);
    let cpu = cpu_values(s);
    let counts = tick_counts(s);
    let pm = s[first_max_index(mem)];
    let pc = s[first_max_index(cpu)];
    &&& a.time_range.from@ == s[0].timestamp.text()
    &&& a.time_range.to@ == s.last().timestamp.text()
    &&& a.memory_stats.min_bytes == series_min(mem)
    &&& a.memory_stats.max_bytes == series_max(mem)
    &&& a.memory_stats.total_bytes == series_sum(mem)
    &&& a.cpu_stats.min_percent == series_min(cpu)
    &&& a.cpu_stats.max_percent == series_max(cpu)
    &&& a.cpu_stats.total_percent == series_sum(cpu)
    &&& a.process_count.min == series_min(counts)
    &&& a.process_count.max == series_max(counts)
    &&& a.process_count.total == series_sum(counts)
    &&& a.process_count.ticks == counts.len()
    &&& a.total_records == s.len()
    &&& a.peak_details@.len() == 2
    &&& peak_matches(a.peak_details@[0], "Memory"@, bytes_text(pm.memory_bytes as nat), pm)
    &&& peak_matches(
        a.peak_details@[1],
        "CPU"@,
        two_decimals_text(pc.cpu_usage as nat) + "%"@,
        pc,
    )
}

fn peak_detail(metric: &str, value: String, x: &ProcessSnapshot) -> (r: PeakDetail)
    ensures
        peak_matches(r, metric@, value@, *x),
{
    PeakDetail {
        metric: String::from_str(metric),
        value,
        timestamp: x.timestamp.to_rfc3339(),
        pid: x.pid,
        process_name: x.process_name.clone(),
    }
}

impl AnalysisResult {
    /// Statistics of time-ordered records: time range from the first and last
    /// record; minimum, maximum and sum of memory and of CPU over all
    /// records; per distinct timestamp the number of distinct process ids,
    /// and their minimum, maximum and sum; and the first records at which
    /// memory and CPU peak. Fails with `EmptyInput` on no records.
    pub fn from_snapshots(snapshots: &[ProcessSnapshot]) -> (r: Result<AnalysisResult, AnalyzeError>)
        ensures
            snapshots.len() == 0 <==> r is Err,
            r matches Err(e) ==> e == AnalyzeError::EmptyInput,
            r matches Ok(a) ==> summarises(a, snapshots@),
    {
        let n = snapshots.len();
        if n == 0 {
            return Err(AnalyzeError::EmptyInput);
        }
        let mut mem: Vec<u64> = Vec::new();
        let mut cpu: Vec<u64> = Vec::new();
        let mut i: usize = 0;
        while i < n
            invariant
                i <= n,
                n == snapshots.len(),
                mem@ == memory_values(snapshots@).take(i as int),
                cpu@ == cpu_values(snapshots@).take(i as int),
            decreases n - i,
        {
            mem.push(snapshots[i].memory_bytes);
            cpu.push(snapshots[i].cpu_usage);
            i = i + 1;
            assert(mem@ =~= memory_values(snapshots@).take(i as int));
            assert(cpu@ =~= cpu_values(snapshots@).take(i as int));
        }
        assert(mem@ =~= memory_values(snapshots@));
        assert(cpu@ =~= cpu_values(snapshots@));
        let (mem_min, mem_max, mem_total, mem_at) = series_stats(&mem);
        let (cpu_min, cpu_max, cpu_total, cpu_at) = series_stats(&cpu);
        let (ticks, counts) = count_ticks(snapshots);
        let (count_min, count_max, count_total, _) = series_stats(&counts);
        let time_range = TimeRange {
            from: snapshots[0].timestamp.to_rfc3339(),
            to: snapshots[n - 1].timestamp.to_rfc3339(),
        };
        let pm = &snapshots[mem_at];
        let pc = &snapshots[cpu_at];
        let mut peak_details: Vec<PeakDetail> = Vec::new();
        peak_details.push(peak_detail("Memory", format_bytes(pm.memory_bytes), pm));
        peak_details.push(peak_detail("CPU", format_percent(pc.cpu_usage), pc));
        Ok(
            AnalysisResult {
                time_range,
                memory_stats: MemoryStats {
                    min_bytes: mem_min,
                    max_bytes: mem_max,
                    total_bytes: mem_total,
                },
                cpu_stats: CpuStats {
                    min_percent: cpu_min,
                    max_percent: cpu_max,
                    total_percent: cpu_total,
                },
                process_count: ProcessCountStats {
                    min: count_min,
                    max: count_max,
                    total: count_total,
                    ticks: ticks.len(),
                },
                total_records: n,
                peak_details,
            },
        )
    }
}

/// The report over the records a query returned: `NoMatchingRecords` when
/// there are none, their statistics otherwise.
pub fn analyze_records(snapshots: &[ProcessSnapshot]) -> (r: Result<AnalysisResult, AnalyzeError>)
    ensures
        snapshots.len() == 0 <==> r == Err::<AnalysisResult, AnalyzeError>(
            AnalyzeError::NoMatchingRecords,
        ),
        snapshots.len() > 0 ==> (r matches Ok(a) && summarises(a, snapshots@)),
{
    if snapshots.len() == 0 {
        return Err(AnalyzeError::NoMatchingRecords);
    }
    AnalysisResult::from_snapshots(snapshots)
}

/// Report over the history at `db_path`: the records whose process name
/// contains `name` and whose timestamps lie between `from` and `to`
/// (inclusive RFC 3339 bounds), summarised. A bound that is not RFC 3339 is
/// refused before the store is opened; no matching record gives
/// `NoMatchingRecords`.
pub fn run_analyze(db_path: &str, name: Option<&str>, from: Option<&str>, to: Option<&str>) -> (r:
    Result<AnalysisResult, AnalyzeError>)
    ensures
        bad_time_filter(from) || bad_time_filter(to) <==> r == Err::<AnalysisResult, AnalyzeError>(
            AnalyzeError::InvalidTimestamp,
        ),
        r matches Err(e) ==> e != AnalyzeError::EmptyInput,
        r matches Ok(a) ==> exists|rows: Seq<StoredRow>|
            (#[trigger] selection(rows, time_filter(from), time_filter(to), name_view(name)) matches Some(
                v,
            ) && v.len() > 0 && summarises(a, v)),
{
    if let Some(f) = from {
        if Timestamp::parse_rfc3339(f).is_none() {
            return Err(AnalyzeError::InvalidTimestamp);
        }
    }
    if let Some(t) = to {
        if Timestamp::parse_rfc3339(t).is_none() {
            return Err(AnalyzeError::InvalidTimestamp);
        }
    }
    let history = match ProcessHistory::new(db_path) {
        Ok(h) => h,
        Err(_) => return Err(AnalyzeError::StorageUnavailable),
    };
    let snapshots = match history.query_snapshots(from, to, name) {
        Ok(v) => v,
        Err(_) => return Err(AnalyzeError::QueryError),
    };
    analyze_records(snapshots.as_slice())
}

} // verus!
