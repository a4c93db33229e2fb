//! Values shared by the grouper, the tree builder, the store and the statistics.

use vstd::prelude::*;

verus! {

/// Scheduling state of a process.
#[derive(Clone, Copy, Debug, PartialEq, Eq, Structural)]
pub enum ProcessStatus {
    Running,
    Sleeping,
    Idle,
    Zombie,
    Unknown,
}

/// The storage tag of a status.
pub open spec fn status_tag_of(status: ProcessStatus) -> Seq<char> {
    match status {
        ProcessStatus::Running => "Run"@,
        ProcessStatus::Sleeping => "Sleep"@,
        ProcessStatus::Idle => "Idle"@,
        ProcessStatus::Zombie => "Zombie"@,
        ProcessStatus::Unknown => "Unknown"@,
    }
}

/// The status a storage tag denotes; a tag of no known status is `Unknown`.
pub open spec fn status_of_tag(tag: Seq<char>) -> ProcessStatus {
    if tag == "Run"@ {
        ProcessStatus::Running
    } else if tag == "Sleep"@ {
        ProcessStatus::Sleeping
    } else if tag == "Idle"@ {
        ProcessStatus::Idle
    } else if tag == "Zombie"@ {
        ProcessStatus::Zombie
    } else {
        ProcessStatus::Unknown
    }
}

/// The storage tag of `status`.
pub fn status_tag(status: ProcessStatus) -> (r: &'static str)
    ensures
        r@ == status_tag_of(status),
{
    match status {
        ProcessStatus::Running => "Run",
        ProcessStatus::Sleeping => "Sleep",
        ProcessStatus::Idle => "Idle",
        ProcessStatus::Zombie => "Zombie",
        ProcessStatus::Unknown => "Unknown",
    }
}

/// The status that the storage tag `tag` denotes.
pub fn parse_status(tag: &str) -> (r: ProcessStatus)
    ensures
        r == status_of_tag(tag@),
{
    let t = String::from_str(tag);
    if t == String::from_str("Run") {
        ProcessStatus::Running
    } else if t == String::from_str("Sleep") {
        ProcessStatus::Sleeping
    } else if t == String::from_str("Idle") {
        ProcessStatus::Idle
    } else if t == String::from_str("Zombie") {
        ProcessStatus::Zombie
    } else {
        ProcessStatus::Unknown
    }
}

/// Reading back the tag of a status gives that status.
pub proof fn lemma_status_tag_round_trip(status: ProcessStatus)
    ensures
        status_of_tag(status_tag_of(status)) == status,
{
    reveal_strlit("Run");
    reveal_strlit("Sleep");
    reveal_strlit("Idle");
    reveal_strlit("Zombie");
    reveal_strlit("Unknown");
    assert("Run"@.len() == 3);
    assert("Idle"@.len() == 4);
    assert("Sleep"@.len() == 5);
    assert("Zombie"@.len() == 6);
    assert("Unknown"@.len() == 7);
}

/// Earliest second that RFC 3339 can write: 0000-01-01T00:00:00Z.
pub const MIN_SECS: i64 = -62167219200;

/// Latest second that RFC 3339 can write: 9999-12-31T23:59:59Z.
pub const MAX_SECS: i64 = 253402300799;

/// Nanoseconds in one second.
pub const NANOS_PER_SEC: u32 = 1000000000;

/// Exclusive bound on the magnitude of a UTC offset, in seconds.
pub const OFFSET_LIMIT: i32 = 86400;

/// The parts of a zoned instant lie in the ranges that `Timestamp` admits:
/// the instant, in UTC and in its own offset, within the years 0000 to 9999
/// that RFC 3339 writes, and an offset of whole minutes under a day, as
/// RFC 3339 writes offsets.
pub open spec fn parts_valid(secs: i64, nanos: u32, offset_secs: i32) -> bool {
    &&& MIN_SECS <= secs <= MAX_SECS
    &&& MIN_SECS <= secs + offset_secs <= MAX_SECS
    &&& offset_secs % 60 == 0
    &&& nanos < NANOS_PER_SEC
    &&& -OFFSET_LIMIT < offset_secs < OFFSET_LIMIT
}

/// The RFC 3339 text of the instant `secs`.`nanos` (seconds since the Unix
/// epoch) written in the UTC offset `offset_secs`.
pub uninterp spec fn rfc3339_of(secs: i64, nanos: u32, offset_secs: i32) -> Seq<char>;

/// The instant (seconds since the Unix epoch, nanoseconds) and UTC offset
/// that an RFC 3339 text denotes, or `None` where the text is not RFC 3339.
pub uninterp spec fn rfc3339_parse(text: Seq<char>) -> Option<(i64, u32, i32)>;

/// Relies on chrono's `DateTime::from_timestamp`, `FixedOffset::east_opt`,
/// `DateTime::with_timezone` and `DateTime::to_rfc3339`: the RFC 3339 text of
/// an instant in a fixed offset. Both constructors return `Some` on the
/// ranges that `requires` admits, and the text, written with every nonzero
/// fraction digit, a four-digit year and an offset in whole minutes, reads
/// back through `DateTime::parse_from_rfc3339` as the same instant and offset.
#[verifier::external_body]
fn rfc3339_text(secs: i64, nanos: u32, offset_secs: i32) -> (r: String)
    requires
        parts_valid(secs, nanos, offset_secs),
    ensures
        r@ == rfc3339_of(secs, nanos, offset_secs),
        rfc3339_parse(r@) == Some((secs, nanos, offset_secs)),
{
    let offset = chrono::FixedOffset::east_opt(offset_secs).unwrap();
    let utc = chrono::DateTime::from_timestamp(secs, nanos).unwrap();
    utc.with_timezone(&offset).to_rfc3339()
}

/// Relies on chrono's `DateTime::parse_from_rfc3339`, read back through
/// `timestamp`, `timestamp_subsec_nanos` and `FixedOffset::local_minus_utc`.
#[verifier::external_body]
fn rfc3339_parts(text: &str) -> (r: Option<(i64, u32, i32)>)
    ensures
        r == rfc3339_parse(text@),
{
    chrono::DateTime::parse_from_rfc3339(text).ok().map(
        |t| (t.timestamp(), t.timestamp_subsec_nanos(), t.offset().local_minus_utc()),
    )
}

/// A zoned instant: seconds and nanoseconds since the Unix epoch, and the
/// UTC offset (seconds east) it is written in.
#[derive(Clone, Copy, Debug, PartialEq, Eq, Structural)]
pub struct Timestamp {
    secs: i64,
    nanos: u32,
    offset_secs: i32,
}

/// The timestamp with the given parts.
pub closed spec fn timestamp_of(secs: i64, nanos: u32, offset_secs: i32) -> Timestamp {
    Timestamp { secs, nanos, offset_secs }
}

/// The timestamp that an RFC 3339 text denotes, where it denotes one in range.
pub open spec fn parsed_timestamp(text: Seq<char>) -> Option<Timestamp> {
    match rfc3339_parse(text) {
        Some(p) => if parts_valid(p.0, p.1, p.2) {
            Some(timestamp_of(p.0, p.1, p.2))
        } else {
            None
        },
        None => None,
    }
}

impl Timestamp {
    #[verifier::type_invariant]
    spec fn well_formed(self) -> bool {
        parts_valid(self.secs, self.nanos, self.offset_secs)
    }

    /// Seconds since the Unix epoch.
    pub closed spec fn spec_secs(self) -> i64 {
        self.secs
    }

    /// Nanoseconds within the second.
    pub closed spec fn spec_nanos(self) -> u32 {
        self.nanos
    }

    /// UTC offset in seconds east.
    pub closed spec fn spec_offset(self) -> i32 {
        self.offset_secs
    }

    /// Nanoseconds since the Unix epoch: what orders timestamps.
    pub open spec fn instant(self) -> int {
        self.spec_secs() * NANOS_PER_SEC + self.spec_nanos()
    }

    /// The RFC 3339 text of this timestamp.
    pub open spec fn text(self) -> Seq<char> {
        rfc3339_of(self.spec_secs(), self.spec_nanos(), self.spec_offset())
    }

    /// A timestamp from its parts, or `None` where they are out of range.
    pub fn new(secs: i64, nanos: u32, offset_secs: i32) -> (r: Option<Timestamp>)
        ensures
            r == (if parts_valid(secs, nanos, offset_secs) {
                Some(timestamp_of(secs, nanos, offset_secs))
            } else {
                None
            }),
    {
        if MIN_SECS <= secs && secs <= MAX_SECS && nanos < NANOS_PER_SEC && -OFFSET_LIMIT
            < offset_secs && offset_secs < OFFSET_LIMIT && offset_secs % 60 == 0 && MIN_SECS
            <= secs + offset_secs as i64 && secs + offset_secs as i64 <= MAX_SECS {
            Some(Timestamp { secs, nanos, offset_secs })
        } else {
            None
        }
    }

    /// Seconds since the Unix epoch.
    pub fn secs(&self) -> (r: i64)
        ensures
            r == self.spec_secs(),
    {
        self.secs
    }

    /// Nanoseconds within the second.
    pub fn nanos(&self) -> (r: u32)
        ensures
            r == self.spec_nanos(),
    {
        self.nanos
    }

    /// UTC offset in seconds east.
    pub fn offset_secs(&self) -> (r: i32)
        ensures
            r == self.spec_offset(),
    {
        self.offset_secs
    }

    /// Whether this timestamp is at or before `other`.
    pub fn not_after(&self, other: &Timestamp) -> (r: bool)
        ensures
            r == (self.instant() <= other.instant()),
    {
        proof {
            use_type_invariant(self);
            use_type_invariant(other);
            let (a, b, x, y) = (self.secs as int, other.secs as int, self.nanos as int, other.nanos as int);
            assert(a < b ==> a * 1000000000 + x < b * 1000000000 + y) by (nonlinear_arith)
                requires
                    0 <= x < 1000000000,
                    0 <= y < 1000000000,
            ;
            assert(a > b ==> a * 1000000000 + x > b * 1000000000 + y) by (nonlinear_arith)
                requires
                    0 <= x < 1000000000,
                    0 <= y < 1000000000,
            ;
        }
        self.secs < other.secs || (self.secs == other.secs && self.nanos <= other.nanos)
    }

    /// The RFC 3339 text of this timestamp.
    pub fn to_rfc3339(&self) -> (r: String)
        ensures
            r@ == self.text(),
            parsed_timestamp(r@) == Some(*self),
    {
        proof {
            use_type_invariant(self);
        }
        rfc3339_text(self.secs, self.nanos, self.offset_secs)
    }

    /// The timestamp an RFC 3339 text denotes, or `None` where the text is not
    /// RFC 3339 or lies outside the years 0000 to 9999 in UTC.
    pub fn parse_rfc3339(text: &str) -> (r: Option<Timestamp>)
        ensures
            r == parsed_timestamp(text@),
    {
        match rfc3339_parts(text) {
            Some(p) => Timestamp::new(p.0, p.1, p.2),
            None => None,
        }
    }
}

/// One process at one sampling instant.
///
/// `cpu_usage` is in hundredths of a percent (1050 is 10.50 %) and may exceed
/// 100 % on several cores.
#[derive(Clone, Debug)]
pub struct ProcessSnapshot {
    pub timestamp: Timestamp,
    pub process_name: String,
    pub pid: u32,
    pub cpu_usage: u64,
    pub memory_bytes: u64,
    pub thread_count: usize,
    pub status: ProcessStatus,
}

impl ProcessSnapshot {
    /// A copy of this snapshot.
    pub fn duplicate(&self) -> (r: ProcessSnapshot)
        ensures
            r == *self,
    {
        ProcessSnapshot {
            timestamp: self.timestamp,
            process_name: self.process_name.clone(),
            pid: self.pid,
            cpu_usage: self.cpu_usage,
            memory_bytes: self.memory_bytes,
            thread_count: self.thread_count,
            status: self.status,
        }
    }
}

} // verus!
