//! Human-readable text for sizes, percentages, statuses and names.

use vstd::prelude::*;
use vstd::utf8::*;
use vstd::string::StringSliceAdditionalSpecFns;
use crate::model::ProcessStatus;

verus! {

/// Bytes in a kibibyte.
pub const KB: u64 = 1024;

/// Bytes in a mebibyte.
pub const MB: u64 = 1048576;

/// Bytes in a gibibyte.
pub const GB: u64 = 1073741824;

/// The text of one decimal digit.
pub open spec fn digit_text(d: nat) -> Seq<char> {
    if d == 0 {
        "0"@
    } else if d == 1 {
        "1"@
    } else if d == 2 {
        "2"@
    } else if d == 3 {
        "3"@
    } else if d == 4 {
        "4"@
    } else if d == 5 {
        "5"@
    } else if d == 6 {
        "6"@
    } else if d == 7 {
        "7"@
    } else if d == 8 {
        "8"@
    } else {
        "9"@
    }
}

/// The decimal text of `n`, without leading zeros.
pub open spec fn decimal_text(n: nat) -> Seq<char>
    decreases n,
{
    if n < 10 {
        digit_text(n)
    } else {
        decimal_text(n / 10) + digit_text(n % 10)
    }
}

fn digit_str(d: u64) -> (r: &'static str)
    requires
        d < 10,
    ensures
        r@ == digit_text(d as nat),
{
    if d == 0 {
        "0"
    } else if d == 1 {
        "1"
    } else if d == 2 {
        "2"
    } else if d == 3 {
        "3"
    } else if d == 4 {
        "4"
    } else if d == 5 {
        "5"
    } else if d == 6 {
        "6"
    } else if d == 7 {
        "7"
    } else if d == 8 {
        "8"
    } else {
        "9"
    }
}

/// Appends the decimal text of `n` to `out`.
pub fn push_decimal(out: &mut String, n: u64)
    ensures
        final(out)@ == old(out)@ + decimal_text(n as nat),
    decreases n,
{
    if n >= 10 {
        push_decimal(out, n / 10);
    }
    out.append(digit_str(n % 10));
    proof {
        if n >= 10 {
            assert(old(out)@ + decimal_text((n / 10) as nat) + digit_text((n % 10) as nat)
                =~= old(out)@ + decimal_text(n as nat));
        } else {
            assert(decimal_text(n as nat) == digit_text(n as nat));
        }
    }
}

/// `bytes / unit` in hundredths, rounded to the nearest, ties to even.
pub open spec fn hundredths(bytes: nat, unit: nat) -> nat {
    let q = bytes * 100 / unit;
    let r = bytes * 100 % unit;
    if 2 * r > unit || (2 * r == unit && q % 2 == 1) {
        q + 1
    } else {
        q
    }
}

/// `h` hundredths written with two decimals: "12.05".
pub open spec fn two_decimals_text(h: nat) -> Seq<char> {
    decimal_text(h / 100) + "."@ + digit_text((h % 100) / 10) + digit_text(h % 10)
}

/// The text of a byte count: whole bytes below one KB, otherwise the value
/// in the largest unit (KB, MB, GB) it reaches, with two decimals.
pub open spec fn bytes_text(bytes: nat) -> Seq<char> {
    if bytes >= GB {
        two_decimals_text(hundredths(bytes, GB as nat)) + " GB"@
    } else if bytes >= MB {
        two_decimals_text(hundredths(bytes, MB as nat)) + " MB"@
    } else if bytes >= KB {
        two_decimals_text(hundredths(bytes, KB as nat)) + " KB"@
    } else {
        decimal_text(bytes) + " B"@
    }
}

fn push_two_decimals(out: &mut String, h: u64)
    ensures
        final(out)@ == old(out)@ + two_decimals_text(h as nat),
{
    push_decimal(out, h / 100);
    out.append(".");
    out.append(digit_str((h % 100) / 10));
    out.append(digit_str(h % 10));
    assert(final(out)@ =~= old(out)@ + two_decimals_text(h as nat));
}

fn scaled_hundredths(bytes: u64, unit: u64) -> (r: u64)
    requires
        unit >= KB,
    ensures
        r == hundredths(bytes as nat, unit as nat),
{
    let wide = bytes as u128 * 100;
    let q = wide / unit as u128;
    let r = wide % unit as u128;
    assert(q <= bytes as u128 * 100 / 1024) by (nonlinear_arith)
        requires
            q == wide / unit as u128,
            wide == bytes as u128 * 100,
            unit >= 1024,
    ;
    let h = if 2 * r > unit as u128 || (2 * r == unit as u128 && q % 2 == 1) {
        q + 1
    } else {
        q
    };
    h as u64
}

/// A byte count as text: "512 B", "1.50 KB", "3.00 MB", "2.25 GB".
pub fn format_bytes(bytes: u64) -> (r: String)
    ensures
        r@ == bytes_text(bytes as nat),
{
    let mut out = String::new();
    if bytes >= GB {
        push_two_decimals(&mut out, scaled_hundredths(bytes, GB));
        out.append(" GB");
    } else if bytes >= MB {
        push_two_decimals(&mut out, scaled_hundredths(bytes, MB));
        out.append(" MB");
    } else if bytes >= KB {
        push_two_decimals(&mut out, scaled_hundredths(bytes, KB));
        out.append(" KB");
    } else {
        push_decimal(&mut out, bytes);
        out.append(" B");
    }
    assert(out@ =~= bytes_text(bytes as nat));
    out
}

/// A CPU usage given in hundredths of a percent as text: "12.05%".
pub fn format_percent(hundredths_of_percent: u64) -> (r: String)
    ensures
        r@ == two_decimals_text(hundredths_of_percent as nat) + "%"@,
{
    let mut out = String::new();
    push_two_decimals(&mut out, hundredths_of_percent);
    out.append("%");
    out
}

/// The short display name of a status.
pub open spec fn status_text(status: ProcessStatus) -> Seq<char> {
    match status {
        ProcessStatus::Running => "Run"@,
        ProcessStatus::Sleeping => "Sleep"@,
        ProcessStatus::Idle => "Idle"@,
        ProcessStatus::Zombie => "Zombie"@,
        ProcessStatus::Unknown => "Unknown"@,
    }
}

/// The short display name of a status.
pub fn format_status(status: ProcessStatus) -> (r: String)
    ensures
        r@ == status_text(status),
{
    match status {
        ProcessStatus::Running => String::from_str("Run"),
        ProcessStatus::Sleeping => String::from_str("Sleep"),
        ProcessStatus::Idle => String::from_str("Idle"),
        ProcessStatus::Zombie => String::from_str("Zombie"),
        ProcessStatus::Unknown => String::from_str("Unknown"),
    }
}

/// The largest character boundary of `bytes` at or below `limit`.
pub open spec fn boundary_at_most(bytes: Seq<u8>, limit: nat) -> nat
    decreases limit,
{
    if limit == 0 || is_char_boundary(bytes, limit as int) {
        limit
    } else {
        boundary_at_most(bytes, (limit - 1) as nat)
    }
}

/// `s` cut to at most `max_len` bytes: unchanged when it fits, otherwise its
/// longest whole-character prefix of at most `max_len - 3` bytes followed by
/// "...". A cut that would fall inside a multi-byte character moves back to
/// the character's start rather than splitting it.
pub fn truncate_string(s: &str, max_len: usize) -> (r: String)
    requires
        s.len() <= max_len || max_len >= 3,
    ensures
        s.len() <= max_len ==> r@ == s@,
        s.len() > max_len ==> exists|p: Seq<char>|
            r@ == p + "..."@ && encode_utf8(p) == encode_utf8(s@).take(
                boundary_at_most(encode_utf8(s@), (max_len - 3) as nat) as int,
            ),
{
    if s.len() <= max_len {
        return s.to_owned();
    }
    let mut cut = max_len - 3;
    proof {
        encode_utf8_valid_utf8(s@);
    }
    while cut > 0 && !s.is_char_boundary(cut)
        invariant
            cut <= encode_utf8(s@).len(),
            boundary_at_most(encode_utf8(s@), cut as nat) == boundary_at_most(
                encode_utf8(s@),
                (max_len - 3) as nat,
            ),
        decreases cut,
    {
        cut = cut - 1;
    }
    let (head, _) = s.split_at(cut);
    let r = head.to_owned().concat("...");
    proof {
        assert(encode_utf8(s@).subrange(0, cut as int) =~= encode_utf8(s@).take(cut as int));
        assert(boundary_at_most(encode_utf8(s@), cut as nat) == cut);
        assert(r@ == head@ + "..."@);
        assert(head.spec_bytes() == encode_utf8(head@));
        assert(encode_utf8(head@) == encode_utf8(s@).take(
            boundary_at_most(encode_utf8(s@), (max_len - 3) as nat) as int,
        ));
    }
    r
}

} // verus!
