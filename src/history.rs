//! Append-only snapshot history kept in an SQLite database.

use vstd::prelude::*;
use vstd::multiset::Multiset;
use crate::model::{
    parse_status, parsed_timestamp, status_of_tag, status_tag, status_tag_of, ProcessSnapshot,
    Timestamp,
};
use crate::text::{chars_contain, chars_of, seq_contains};

verus! {

#[verifier::external_type_specification]
#[verifier::external_body]
pub struct ExConnection(rusqlite::Connection);

#[verifier::external_type_specification]
#[verifier::external_body]
pub struct ExSqlError(rusqlite::Error);

/// Why a history operation failed.
#[derive(Clone, Copy, Debug, PartialEq, Eq, Structural)]
pub enum HistoryError {
    /// The database could not be opened or its table created.
    StorageUnavailable,
    /// A batch could not be written; nothing of it was kept.
    WriteFailed,
    /// A value of a snapshot does not fit its storage column.
    ValueOutOfRange,
    /// A time filter is not an RFC 3339 timestamp.
    InvalidTimestamp,
    /// The database could not be read, or held a malformed record.
    QueryError,
}

/// A value bound to a statement parameter.
pub enum SqlArg {
    Int(i64),
    Text(String),
}

/// One stored record as read back, column by column; CPU usage in
/// hundredths of a percent.
pub struct StoredRow {
    pub timestamp: String,
    pub process_name: String,
    pub pid: i64,
    pub cpu_usage: i64,
    pub memory_bytes: i64,
    pub thread_count: i64,
    pub status: String,
}

/// Relies on rusqlite's `Connection::open`: opens, or creates, the database
/// file at `path`.
#[verifier::external_body]
fn open_database(path: &str) -> (r: Result<rusqlite::Connection, rusqlite::Error>) {
    rusqlite::Connection::open(path)
}

/// Relies on rusqlite's `Connection::execute_batch`: runs SQL statements that
/// take no parameters.
#[verifier::external_body]
fn run_batch(conn: &rusqlite::Connection, sql: &str) -> (r: Result<(), rusqlite::Error>) {
    conn.execute_batch(sql)
}

/// Relies on rusqlite's `Connection::execute` with `params_from_iter`: runs
/// one statement whose positional parameters are `args`.
#[verifier::external_body]
fn run_statement(conn: &rusqlite::Connection, sql: &str, args: &Vec<SqlArg>) -> (r: Result<
    usize,
    rusqlite::Error,
>) {
    let values = args.iter().map(
        |a| match a {
            SqlArg::Int(v) => rusqlite::types::Value::Integer(*v),
            SqlArg::Text(t) => rusqlite::types::Value::Text(t.clone()),
        },
    );
    conn.execute(sql, rusqlite::params_from_iter(values))
}

/// Relies on rusqlite's `Connection::prepare`, `Statement::query_map` and
/// `Row::get`: every row the query yields, its seven columns read in order.
#[verifier::external_body]
fn fetch_rows(conn: &rusqlite::Connection, sql: &str) -> (r: Result<Vec<StoredRow>, rusqlite::Error>) {
    let mut stmt = conn.prepare(sql)?;
    let rows = stmt.query_map([], |r| {
        let (timestamp, process_name, pid, cpu_usage) = (r.get(0)?, r.get(1)?, r.get(2)?, r.get(3)?);
        let (memory_bytes, thread_count, status) = (r.get(4)?, r.get(5)?, r.get(6)?);
        Ok(StoredRow { timestamp, process_name, pid, cpu_usage, memory_bytes, thread_count, status })
    })?;
    rows.collect()
}

/// Table and indexes of the store.
pub const SCHEMA_SQL: &'static str = "CREATE TABLE IF NOT EXISTS process_snapshots (
    id INTEGER PRIMARY KEY AUTOINCREMENT,
    timestamp TEXT NOT NULL,
    process_name TEXT NOT NULL,
    pid INTEGER NOT NULL,
    cpu_usage REAL NOT NULL,
    memory_bytes INTEGER NOT NULL,
    thread_count INTEGER NOT NULL,
    status TEXT NOT NULL
);
CREATE INDEX IF NOT EXISTS idx_timestamp ON process_snapshots(timestamp);
CREATE INDEX IF NOT EXISTS idx_pid ON process_snapshots(pid);
CREATE INDEX IF NOT EXISTS idx_process_name ON process_snapshots(process_name);";

/// Appends one record; CPU usage is bound in hundredths and stored in percent.
pub const INSERT_SQL: &'static str = "INSERT INTO process_snapshots
    (timestamp, process_name, pid, cpu_usage, memory_bytes, thread_count, status)
    VALUES (?1, ?2, ?3, ?4 / 100.0, ?5, ?6, ?7)";

/// Reads every record in the order it was appended, CPU usage in hundredths.
pub const SELECT_SQL: &'static str = "SELECT timestamp, process_name, pid,
    CAST(ROUND(cpu_usage * 100) AS INTEGER), memory_bytes, thread_count, status
    FROM process_snapshots ORDER BY id ASC";

/// `a` binds the text `t`.
pub open spec fn binds_text(a: SqlArg, t: Seq<char>) -> bool {
    a matches SqlArg::Text(x) && x@ == t
}

/// `a` binds the integer `v`.
pub open spec fn binds_int(a: SqlArg, v: int) -> bool {
    a matches SqlArg::Int(x) && x == v
}

/// `args` are the parameters of `INSERT_SQL` for `s`, in order: timestamp
/// text, name, id, CPU usage, memory, thread count and status tag.
pub open spec fn insert_args_of(args: Seq<SqlArg>, s: ProcessSnapshot) -> bool {
    &&& args.len() == 7
    &&& binds_text(args[0], s.timestamp.text())
    &&& binds_text(args[1], s.process_name@)
    &&& binds_int(args[2], s.pid as int)
    &&& binds_int(args[3], s.cpu_usage as int)
    &&& binds_int(args[4], s.memory_bytes as int)
    &&& binds_int(args[5], s.thread_count as int)
    &&& binds_text(args[6], status_tag_of(s.status))
}

/// The parameters that `insert_snapshots` binds to `INSERT_SQL` for `s`.
pub fn insert_args(s: &ProcessSnapshot) -> (r: Vec<SqlArg>)
    requires
        fits_storage(*s),
    ensures
        insert_args_of(r@, *s),
        parsed_timestamp(s.timestamp.text()) == Some(s.timestamp),
{
    let mut args: Vec<SqlArg> = Vec::new();
    args.push(SqlArg::Text(s.timestamp.to_rfc3339()));
    args.push(SqlArg::Text(s.process_name.clone()));
    args.push(SqlArg::Int(s.pid as i64));
    args.push(SqlArg::Int(s.cpu_usage as i64));
    args.push(SqlArg::Int(s.memory_bytes as i64));
    args.push(SqlArg::Int(s.thread_count as i64));
    args.push(SqlArg::Text(String::from_str(status_tag(s.status))));
    args
}

/// Every value of `s` fits its storage column.
pub open spec fn fits_storage(s: ProcessSnapshot) -> bool {
    &&& s.cpu_usage <= i64::MAX
    &&& s.memory_bytes <= i64::MAX
    &&& s.thread_count <= i64::MAX
}

/// The snapshot a stored row holds, or `None` where a column is malformed:
/// a timestamp that is not RFC 3339 (or out of range), or a number out of
/// its field's range. An unknown status tag reads as `Unknown`.
pub open spec fn decoded(row: StoredRow) -> Option<ProcessSnapshot> {
    match parsed_timestamp(row.timestamp@) {
        None => None,
        Some(t) => if 0 <= row.pid <= u32::MAX && 0 <= row.cpu_usage && 0 <= row.memory_bytes && 0
            <= row.thread_count <= usize::MAX {
            Some(
                ProcessSnapshot {
                    timestamp: t,
                    process_name: row.process_name,
                    pid: row.pid as u32,
                    cpu_usage: row.cpu_usage as u64,
                    memory_bytes: row.memory_bytes as u64,
                    thread_count: row.thread_count as usize,
                    status: status_of_tag(row.status@),
                },
            )
        } else {
            None
        },
    }
}

/// The snapshots all `rows` hold, or `None` where one is malformed.
pub open spec fn decode_all(rows: Seq<StoredRow>) -> Option<Seq<ProcessSnapshot>>
    decreases rows.len(),
{
    if rows.len() == 0 {
        Some(Seq::empty())
    } else {
        match (decode_all(rows.drop_last()), decoded(rows.last())) {
            (Some(p), Some(x)) => Some(p.push(x)),
            _ => None,
        }
    }
}

/// `x` satisfies every filter given: taken no earlier than `from`, no later
/// than `to`, and with `name` occurring in its process name.
pub open spec fn passes(
    x: ProcessSnapshot,
    from: Option<Timestamp>,
    to: Option<Timestamp>,
    name: Option<Seq<char>>,
) -> bool {
    &&& (from matches Some(f) ==> f.instant() <= x.timestamp.instant())
    &&& (to matches Some(t) ==> x.timestamp.instant() <= t.instant())
    &&& (name matches Some(n) ==> seq_contains(x.process_name@, n))
}

/// The entries of `s` that pass the filters, in their order.
pub open spec fn keep_passing(
    s: Seq<ProcessSnapshot>,
    from: Option<Timestamp>,
    to: Option<Timestamp>,
    name: Option<Seq<char>>,
) -> Seq<ProcessSnapshot>
    decreases s.len(),
{
    if s.len() == 0 {
        s
    } else {
        let p = keep_passing(s.drop_last(), from, to, name);
        if passes(s.last(), from, to, name) {
            p.push(s.last())
        } else {
            p
        }
    }
}

/// `s` with `x` placed after every entry not later than it.
pub open spec fn insert_by_time(x: ProcessSnapshot, s: Seq<ProcessSnapshot>) -> Seq<ProcessSnapshot>
    decreases s.len(),
{
    if s.len() == 0 {
        seq![x]
    } else if x.timestamp.instant() < s[0].timestamp.instant() {
        seq![x] + s
    } else {
        seq![s[0]] + insert_by_time(x, s.drop_first())
    }
}

/// `s` in ascending time, entries at the same instant in their order in `s`.
pub open spec fn sort_by_time(s: Seq<ProcessSnapshot>) -> Seq<ProcessSnapshot>
    decreases s.len(),
{
    if s.len() == 0 {
        s
    } else {
        insert_by_time(s.last(), sort_by_time(s.drop_last()))
    }
}

/// What a query over the stored `rows` returns: the records passing the
/// filters in ascending time, or `None` where a row is malformed.
pub open spec fn selection(
    rows: Seq<StoredRow>,
    from: Option<Timestamp>,
    to: Option<Timestamp>,
    name: Option<Seq<char>>,
) -> Option<Seq<ProcessSnapshot>> {
    match decode_all(rows) {
        Some(d) => Some(sort_by_time(keep_passing(d, from, to, name))),
        None => None,
    }
}

/// The characters of an optional name filter.
pub open spec fn name_view(name: Option<&str>) -> Option<Seq<char>> {
    match name {
        Some(n) => Some(n@),
        None => None,
    }
}

/// The timestamp an optional time filter denotes (`None` where absent).
pub open spec fn time_filter(text: Option<&str>) -> Option<Timestamp> {
    match text {
        Some(t) => parsed_timestamp(t@),
        None => None,
    }
}

/// An optional time filter is given but is not an RFC 3339 timestamp.
pub open spec fn bad_time_filter(text: Option<&str>) -> bool {
    text matches Some(t) && parsed_timestamp(t@) is None
}

/// The snapshot a stored row holds.
pub fn row_to_snapshot(row: &StoredRow) -> (r: Option<ProcessSnapshot>)
    ensures
        r == decoded(*row),
{
    let timestamp = match Timestamp::parse_rfc3339(row.timestamp.as_str()) {
        Some(t) => t,
        None => return None,
    };
    if row.pid < 0 || row.pid > u32::MAX as i64 || row.cpu_usage < 0 || row.memory_bytes < 0
        || row.thread_count < 0 || row.thread_count as u64 > usize::MAX as u64 {
        return None;
    }
    Some(
        ProcessSnapshot {
            timestamp,
            process_name: row.process_name.clone(),
            pid: row.pid as u32,
            cpu_usage: row.cpu_usage as u64,
            memory_bytes: row.memory_bytes as u64,
            thread_count: row.thread_count as usize,
            status: parse_status(row.status.as_str()),
        },
    )
}

proof fn lemma_decode_fails_on(rows: Seq<StoredRow>, i: int)
    requires
        0 <= i <= rows.len(),
        decode_all(rows.take(i)) is None,
    ensures
        decode_all(rows) is None,
    decreases rows.len() - i,
{
    if i < rows.len() {
        assert(rows.take(i + 1).drop_last() =~= rows.take(i));
        lemma_decode_fails_on(rows, i + 1);
    } else {
        assert(rows.take(i) =~= rows);
    }
}

proof fn lemma_insert_by_time_at(x: ProcessSnapshot, s: Seq<ProcessSnapshot>, pos: int)
    requires
        0 <= pos <= s.len(),
        forall|j: int| 0 <= j < pos ==> #[trigger] s[j].timestamp.instant() <= x.timestamp.instant(),
        pos < s.len() ==> x.timestamp.instant() < s[pos].timestamp.instant(),
    ensures
        insert_by_time(x, s) == s.insert(pos, x),
    decreases s.len(),
{
    if s.len() == 0 {
        assert(s.insert(pos, x) =~= seq![x]);
    } else if pos == 0 {
        assert(s.insert(pos, x) =~= seq![x] + s);
    } else {
        let t = s.drop_first();
        assert forall|j: int| 0 <= j < pos - 1 implies #[trigger] t[j].timestamp.instant()
            <= x.timestamp.instant() by {
            assert(t[j] == s[j + 1]);
        }
        lemma_insert_by_time_at(x, t, pos - 1);
        assert(s.insert(pos, x) =~= seq![s[0]] + t.insert(pos - 1, x));
    }
}

/// The records of `rows` that pass the filters, in ascending time (records
/// at one instant in row order); `QueryError` where a row is malformed.
pub fn select_snapshots(
    rows: &Vec<StoredRow>,
    from: Option<Timestamp>,
    to: Option<Timestamp>,
    name: Option<&str>,
) -> (r: Result<Vec<ProcessSnapshot>, HistoryError>)
    ensures
        selection(rows@, from, to, name_view(name)) is None <==> r is Err,
        r matches Err(e) ==> e == HistoryError::QueryError,
        r matches Ok(v) ==> selection(rows@, from, to, name_view(name)) == Some(v@),
{
    let needle: Option<Vec<char>> = match name {
        Some(n) => Some(chars_of(n)),
        None => None,
    };
    let ghost nv = name_view(name);
    let mut kept: Vec<ProcessSnapshot> = Vec::new();
    let ghost mut done: Seq<ProcessSnapshot> = Seq::empty();
    let mut i: usize = 0;
    while i < rows.len()
        invariant
            i <= rows.len(),
            nv == name_view(name),
            match needle {
                Some(v) => nv == Some(v@),
                None => nv is None,
            },
            decode_all(rows@.take(i as int)) == Some(done),
            kept@ == keep_passing(done, from, to, nv),
        decreases rows.len() - i,
    {
        let ghost t = rows@.take(i + 1);
        assert(t.drop_last() =~= rows@.take(i as int));
        let x = match row_to_snapshot(&rows[i]) {
            Some(x) => x,
            None => {
                proof {
                    lemma_decode_fails_on(rows@, i + 1);
                }
                return Err(HistoryError::QueryError);
            },
        };
        let mut keep = true;
        if let Some(f) = &from {
            if !f.not_after(&x.timestamp) {
                keep = false;
            }
        }
        if let Some(u) = &to {
            if !x.timestamp.not_after(u) {
                keep = false;
            }
        }
        if let Some(v) = &needle {
            if !chars_contain(&chars_of(x.process_name.as_str()), v) {
                keep = false;
            }
        }
        assert(keep == passes(x, from, to, nv));
        proof {
            assert(done.push(x).drop_last() =~= done);
            done = done.push(x);
        }
        if keep {
            kept.push(x);
        }
        i = i + 1;
    }
    assert(rows@.take(rows.len() as int) =~= rows@);
    let mut out: Vec<ProcessSnapshot> = Vec::new();
    let mut k: usize = 0;
    while k < kept.len()
        invariant
            k <= kept.len(),
            out@ == sort_by_time(kept@.take(k as int)),
        decreases kept.len() - k,
    {
        let x = kept[k].duplicate();
        proof {
            lemma_sort_by_time(kept@.take(k as int));
        }
        let mut pos: usize = out.len();
        while pos > 0 && !out[pos - 1].timestamp.not_after(&x.timestamp)
            invariant
                pos <= out.len(),
                forall|i: int, j: int|
                    0 <= i < j < out.len() ==> out@[i].timestamp.instant()
                        <= out@[j].timestamp.instant(),
                forall|j: int|
                    pos <= j < out.len() ==> x.timestamp.instant() < #[trigger] out@[j].timestamp.instant(),
            decreases pos,
        {
            pos = pos - 1;
        }
        proof {
            assert forall|j: int| 0 <= j < pos implies #[trigger] out@[j].timestamp.instant()
                <= x.timestamp.instant() by {
                assert(out@[j].timestamp.instant() <= out@[pos - 1].timestamp.instant());
            }
            lemma_insert_by_time_at(x, out@, pos as int);
            assert(kept@.take(k + 1).drop_last() =~= kept@.take(k as int));
        }
        out.insert(pos, x);
        k = k + 1;
    }
    assert(kept@.take(kept.len() as int) =~= kept@);
    Ok(out)
}

/// History of snapshots kept in one database.
pub struct ProcessHistory {
    conn: rusqlite::Connection,
}

impl ProcessHistory {
    /// Opens the database at `db_path`, creating the file, its table and
    /// indexes where missing.
    pub fn new(db_path: &str) -> (r: Result<ProcessHistory, HistoryError>)
        ensures
            r matches Err(e) ==> e == HistoryError::StorageUnavailable,
    {
        match open_database(db_path) {
            Err(_) => Err(HistoryError::StorageUnavailable),
            Ok(conn) => {
                let history = ProcessHistory { conn };
                match history.init_schema() {
                    Ok(()) => Ok(history),
                    Err(e) => Err(e),
                }
            },
        }
    }

    fn init_schema(&self) -> (r: Result<(), HistoryError>)
        ensures
            r matches Err(e) ==> e == HistoryError::StorageUnavailable,
    {
        match run_batch(&self.conn, SCHEMA_SQL) {
            Ok(()) => Ok(()),
            Err(_) => Err(HistoryError::StorageUnavailable),
        }
    }

    /// Appends `snapshots` as one batch: all are kept or none. An empty batch
    /// succeeds without touching the database; a batch with a value that
    /// does not fit its column is refused before anything is written.
    /// Otherwise, inside one transaction, each snapshot in turn is written by
    /// `INSERT_SQL` with the parameters `insert_args` gives for it.
    pub fn insert_snapshots(&mut self, snapshots: &[ProcessSnapshot]) -> (r: Result<(), HistoryError>)
        ensures
            snapshots.len() == 0 ==> r == Ok::<(), HistoryError>(()) && *final(self) == *old(self),
            snapshots.len() > 0 && (exists|i: int|
                0 <= i < snapshots.len() && !fits_storage(#[trigger] snapshots@[i])) ==> r
                == Err::<(), HistoryError>(HistoryError::ValueOutOfRange),
            r == Err::<(), HistoryError>(HistoryError::ValueOutOfRange) ==> exists|i: int|
                0 <= i < snapshots.len() && !fits_storage(#[trigger] snapshots@[i]),
            r matches Err(e) ==> e == HistoryError::ValueOutOfRange || e
                == HistoryError::WriteFailed,
    {
        if snapshots.len() == 0 {
            return Ok(());
        }
        let mut i: usize = 0;
        while i < snapshots.len()
            invariant
                i <= snapshots.len(),
                forall|k: int| 0 <= k < i ==> fits_storage(#[trigger] snapshots@[k]),
            decreases snapshots.len() - i,
        {
            let s = &snapshots[i];
            if s.cpu_usage > i64::MAX as u64 || s.memory_bytes > i64::MAX as u64 || s.thread_count as u64
                > i64::MAX as u64 {
                assert(!fits_storage(snapshots@[i as int]));
                return Err(HistoryError::ValueOutOfRange);
            }
            i = i + 1;
        }
        if run_batch(&self.conn, "BEGIN IMMEDIATE").is_err() {
            return Err(HistoryError::WriteFailed);
        }
        let mut k: usize = 0;
        while k < snapshots.len()
            invariant
                k <= snapshots.len(),
                forall|q: int| 0 <= q < snapshots.len() ==> fits_storage(#[trigger] snapshots@[q]),
            decreases snapshots.len() - k,
        {
            let args = insert_args(&snapshots[k]);
            if run_statement(&self.conn, INSERT_SQL, &args).is_err() {
                let _ = run_batch(&self.conn, "ROLLBACK");
                return Err(HistoryError::WriteFailed);
            }
            k = k + 1;
        }
        if run_batch(&self.conn, "COMMIT").is_err() {
            let _ = run_batch(&self.conn, "ROLLBACK");
            return Err(HistoryError::WriteFailed);
        }
        Ok(())
    }

    /// The stored records that pass the filters, in ascending time (records
    /// at one instant in the order they were appended). `from` and `to` are
    /// inclusive RFC 3339 bounds and `name` a substring of the process name;
    /// an absent filter admits everything. A bound that is not RFC 3339 is
    /// refused before the database is read.
    pub fn query_snapshots(&self, from: Option<&str>, to: Option<&str>, name: Option<&str>) -> (r:
        Result<Vec<ProcessSnapshot>, HistoryError>)
        ensures
            bad_time_filter(from) || bad_time_filter(to) <==> r == Err::<
                Vec<ProcessSnapshot>,
                HistoryError,
            >(HistoryError::InvalidTimestamp),
            r matches Err(e) ==> e == HistoryError::InvalidTimestamp || e
                == HistoryError::QueryError,
            r matches Ok(v) ==> exists|rows: Seq<StoredRow>|
                selection(rows, time_filter(from), time_filter(to), name_view(name)) == Some(
                    #[trigger] v@,
                ),
    {
        let from_time = match from {
            Some(f) => match Timestamp::parse_rfc3339(f) {
                Some(t) => Some(t),
                None => return Err(HistoryError::InvalidTimestamp),
            },
            None => None,
        };
        let to_time = match to {
            Some(t) => match Timestamp::parse_rfc3339(t) {
                Some(t) => Some(t),
                None => return Err(HistoryError::InvalidTimestamp),
            },
            None => None,
        };
        let rows = match fetch_rows(&self.conn, SELECT_SQL) {
            Ok(rows) => rows,
            Err(_) => return Err(HistoryError::QueryError),
        };
        select_snapshots(&rows, from_time, to_time, name)
    }
}

proof fn lemma_insert_by_time_multiset(x: ProcessSnapshot, s: Seq<ProcessSnapshot>)
    ensures
        insert_by_time(x, s).to_multiset() == s.to_multiset().insert(x),
        insert_by_time(x, s).len() == s.len() + 1,
    decreases s.len(),
{
    broadcast use vstd::seq_lib::group_to_multiset_ensures;

    if s.len() == 0 {
        assert(seq![x] =~= Seq::<ProcessSnapshot>::empty().push(x));
    } else if x.timestamp.instant() < s[0].timestamp.instant() {
        vstd::seq_lib::lemma_multiset_commutative(seq![x], s);
        assert(seq![x] =~= Seq::<ProcessSnapshot>::empty().push(x));
        assert(seq![x].to_multiset() =~= Multiset::empty().insert(x));
        assert(s.to_multiset().add(Multiset::empty().insert(x)) =~= s.to_multiset().insert(x));
    } else {
        let t = s.drop_first();
        lemma_insert_by_time_multiset(x, t);
        vstd::seq_lib::lemma_multiset_commutative(seq![s[0]], insert_by_time(x, t));
        vstd::seq_lib::lemma_multiset_commutative(seq![s[0]], t);
        assert(seq![s[0]] + t =~= s);
        assert(seq![s[0]] =~= Seq::<ProcessSnapshot>::empty().push(s[0]));
        assert(seq![s[0]].to_multiset() =~= Multiset::empty().insert(s[0]));
        assert(Multiset::empty().insert(s[0]).add(t.to_multiset().insert(x)) =~= Multiset::empty().insert(
            s[0],
        ).add(t.to_multiset()).insert(x));
    }
}

proof fn lemma_insert_by_time_sorted(x: ProcessSnapshot, s: Seq<ProcessSnapshot>)
    requires
        forall|i: int, j: int|
            0 <= i < j < s.len() ==> s[i].timestamp.instant() <= s[j].timestamp.instant(),
    ensures
        forall|i: int, j: int|
            0 <= i < j < insert_by_time(x, s).len() ==> insert_by_time(x, s)[i].timestamp.instant()
                <= insert_by_time(x, s)[j].timestamp.instant(),
        insert_by_time(x, s).len() > 0,
        insert_by_time(x, s)[0] == x || insert_by_time(x, s)[0] == s[0],
    decreases s.len(),
{
    if s.len() > 0 && !(x.timestamp.instant() < s[0].timestamp.instant()) {
        let t = s.drop_first();
        lemma_insert_by_time_sorted(x, t);
        let r = insert_by_time(x, s);
        let rt = insert_by_time(x, t);
        assert(r == seq![s[0]] + rt);
        assert forall|i: int, j: int| 0 <= i < j < r.len() implies r[i].timestamp.instant()
            <= r[j].timestamp.instant() by {
            if i > 0 {
                assert(r[i] == rt[i - 1] && r[j] == rt[j - 1]);
            } else {
                assert(r[j] == rt[j - 1]);
                if t.len() > 0 {
                    assert(rt[0] == x || rt[0] == t[0]);
                    assert(s[0].timestamp.instant() <= t[0].timestamp.instant());
                    if j - 1 > 0 {
                        assert(rt[0].timestamp.instant() <= rt[j - 1].timestamp.instant());
                    }
                }
            }
        }
    } else if s.len() > 0 {
        let r = insert_by_time(x, s);
        assert forall|i: int, j: int| 0 <= i < j < r.len() implies r[i].timestamp.instant()
            <= r[j].timestamp.instant() by {
            if i > 0 {
                assert(r[i] == s[i - 1] && r[j] == s[j - 1]);
            } else {
                assert(r[j] == s[j - 1]);
                if j - 1 > 0 {
                    assert(s[0].timestamp.instant() <= s[j - 1].timestamp.instant());
                }
            }
        }
    }
}

/// Ordering by time puts the records in ascending time and keeps every one
/// of them, as often as it occurs.
pub proof fn lemma_sort_by_time(s: Seq<ProcessSnapshot>)
    ensures
        sort_by_time(s).to_multiset() == s.to_multiset(),
        forall|i: int, j: int|
            0 <= i < j < sort_by_time(s).len() ==> sort_by_time(s)[i].timestamp.instant()
                <= sort_by_time(s)[j].timestamp.instant(),
    decreases s.len(),
{
    broadcast use vstd::seq_lib::group_to_multiset_ensures;

    if s.len() > 0 {
        lemma_sort_by_time(s.drop_last());
        lemma_insert_by_time_multiset(s.last(), sort_by_time(s.drop_last()));
        lemma_insert_by_time_sorted(s.last(), sort_by_time(s.drop_last()));
        assert(s.drop_last().push(s.last()) =~= s);
    }
}

proof fn lemma_keep_all(s: Seq<ProcessSnapshot>)
    ensures
        keep_passing(s, None, None, None) == s,
    decreases s.len(),
{
    if s.len() > 0 {
        lemma_keep_all(s.drop_last());
        assert(s.drop_last().push(s.last()) =~= s);
    }
}

/// A query answers with its records in ascending time; with no filter it
/// answers with every stored record, each as often as it was stored.
pub proof fn lemma_query_ordered_and_complete(
    rows: Seq<StoredRow>,
    from: Option<Timestamp>,
    to: Option<Timestamp>,
    name: Option<Seq<char>>,
)
    requires
        selection(rows, from, to, name) is Some,
    ensures
        forall|i: int, j: int|
            0 <= i < j < selection(rows, from, to, name)->0.len() ==> selection(
                rows,
                from,
                to,
                name,
            )->0[i].timestamp.instant() <= selection(rows, from, to, name)->0[j].timestamp.instant(),
        from is None && to is None && name is None ==> selection(rows, from, to, name)->0.to_multiset()
            == decode_all(rows)->0.to_multiset(),
{
    let d = decode_all(rows)->0;
    lemma_sort_by_time(keep_passing(d, from, to, name));
    lemma_keep_all(d);
}

proof fn lemma_keep_none(
    s: Seq<ProcessSnapshot>,
    from: Option<Timestamp>,
    to: Option<Timestamp>,
    name: Option<Seq<char>>,
)
    requires
        forall|i: int| 0 <= i < s.len() ==> !passes(#[trigger] s[i], from, to, name),
    ensures
        keep_passing(s, from, to, name) == Seq::<ProcessSnapshot>::empty(),
    decreases s.len(),
{
    if s.len() > 0 {
        lemma_keep_none(s.drop_last(), from, to, name);
        assert(!passes(s[s.len() - 1], from, to, name));
    }
}

/// A query whose filters no stored record passes answers with an empty list,
/// not with an error.
pub proof fn lemma_no_match_is_empty(
    rows: Seq<StoredRow>,
    from: Option<Timestamp>,
    to: Option<Timestamp>,
    name: Option<Seq<char>>,
)
    requires
        decode_all(rows) is Some,
        forall|i: int|
            0 <= i < decode_all(rows)->0.len() ==> !passes(
                #[trigger] decode_all(rows)->0[i],
                from,
                to,
                name,
            ),
    ensures
        selection(rows, from, to, name) == Some(Seq::<ProcessSnapshot>::empty()),
{
    lemma_keep_none(decode_all(rows)->0, from, to, name);
}

/// `row` holds what `insert_snapshots` binds for `s`.
pub open spec fn row_holds(row: StoredRow, s: ProcessSnapshot) -> bool {
    &&& row.timestamp@ == s.timestamp.text()
    &&& row.process_name@ == s.process_name@
    &&& row.pid == s.pid
    &&& row.cpu_usage == s.cpu_usage
    &&& row.memory_bytes == s.memory_bytes
    &&& row.thread_count == s.thread_count
    &&& row.status@ == status_tag_of(s.status)
}

/// A stored snapshot reads back equal in every field. The timestamp
/// condition is what `insert_args` (and `Timestamp::to_rfc3339`) ensure of
/// every snapshot they write.
pub proof fn lemma_row_round_trip(row: StoredRow, s: ProcessSnapshot)
    requires
        row_holds(row, s),
        parsed_timestamp(s.timestamp.text()) == Some(s.timestamp),
    ensures
        decoded(row) matches Some(d) && d.timestamp == s.timestamp && d.process_name@
            == s.process_name@ && d.pid == s.pid && d.cpu_usage == s.cpu_usage && d.memory_bytes
            == s.memory_bytes && d.thread_count == s.thread_count && d.status == s.status,
{
    crate::model::lemma_status_tag_round_trip(s.status);
}

} // verus!
