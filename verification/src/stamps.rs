//! Timestamps and random identifiers for stored records.

use crate::text::{
    hex_byte_text, padded_signed_text, padded_text, push_hex_byte, push_padded,
    push_padded_signed, string_of,
};
use crate::dashboard::is_ascii_digit;
use rand::RngCore;
use vstd::prelude::*;

verus! {

#[verifier::external_type_specification]
#[verifier::external_body]
pub struct ExOffsetDateTime(time::OffsetDateTime);

#[verifier::external_type_specification]
#[verifier::external_body]
pub struct ExFormatError(time::error::Format);

/// `time::OffsetDateTime::now_utc`: the current instant. Nothing is claimed
/// of it: it is the clock's reading.
#[verifier::external_body]
fn utc_now() -> time::OffsetDateTime {
    time::OffsetDateTime::now_utc()
}

/// An RFC 3339 timestamp as the time crate writes one: `YYYY-MM-DDTHH:MM:SS`
/// (each field zero-padded digits), then at least one more character (the
/// fraction, `Z` or the offset).
pub open spec fn rfc3339_stamp(s: Seq<char>) -> bool {
    &&& s.len() >= 20
    &&& is_ascii_digit(s[0]) && is_ascii_digit(s[1]) && is_ascii_digit(s[2]) && is_ascii_digit(s[3])
    &&& s[4] == '-' && is_ascii_digit(s[5]) && is_ascii_digit(s[6])
    &&& s[7] == '-' && is_ascii_digit(s[8]) && is_ascii_digit(s[9])
    &&& s[10] == 'T' && is_ascii_digit(s[11]) && is_ascii_digit(s[12])
    &&& s[13] == ':' && is_ascii_digit(s[14]) && is_ascii_digit(s[15])
    &&& s[16] == ':' && is_ascii_digit(s[17]) && is_ascii_digit(s[18])
}

/// `OffsetDateTime::format` with the RFC 3339 description. On success the
/// text has the RFC 3339 shape (four-digit year, two-digit month, day, hour,
/// minute and second with their separators, then the fraction and offset),
/// as the crate's writer for that description produces it; which instant it
/// shows is the opaque input's and is not claimed.
#[verifier::external_body]
fn format_rfc3339(t: time::OffsetDateTime) -> (r: Result<String, time::error::Format>)
    ensures
        match r {
            Ok(s) => rfc3339_stamp(s@),
            Err(_) => true,
        },
{
    t.format(&time::format_description::well_known::Rfc3339)
}

/// `OffsetDateTime::year`: within the crate's year range (±999 999 at most,
/// whichever features are on).
#[verifier::external_body]
fn utc_year(t: time::OffsetDateTime) -> (y: i32)
    ensures
        -999999 <= y <= 999999,
{
    t.year()
}

/// `u8::from(OffsetDateTime::month)`: the month number, 1 to 12.
#[verifier::external_body]
fn utc_month(t: time::OffsetDateTime) -> (m: u8)
    ensures
        1 <= m <= 12,
{
    u8::from(t.month())
}

/// `OffsetDateTime::day`: the day of the month, 1 to 31.
#[verifier::external_body]
fn utc_day(t: time::OffsetDateTime) -> (d: u8)
    ensures
        1 <= d <= 31,
{
    t.day()
}

/// Current UTC time in RFC 3339, or the Unix epoch if it cannot be
/// rendered. Either way an RFC 3339 timestamp.
pub fn now_rfc3339() -> (r: String)
    ensures
        rfc3339_stamp(r@),
{
    match format_rfc3339(utc_now()) {
        Ok(s) => s,
        Err(_) => {
            proof {
                reveal_strlit("1970-01-01T00:00:00Z");
            }
            string_of("1970-01-01T00:00:00Z")
        },
    }
}

/// `rand::rngs::OsRng.fill_bytes` into `n` fresh bytes. The values come from
/// the operating system; only their number is claimed. (The generator
/// panics if the operating system cannot supply randomness.)
#[verifier::external_body]
fn random_bytes(n: usize) -> (r: Vec<u8>)
    ensures
        r@.len() == n,
{
    let mut v = vec![0u8; n];
    rand::rngs::OsRng.fill_bytes(&mut v);
    v
}

/// Lowercase hex of the bytes, two digits each.
pub open spec fn hex_text(bytes: Seq<u8>) -> Seq<char>
    decreases bytes.len(),
{
    if bytes.len() == 0 {
        Seq::empty()
    } else {
        hex_text(bytes.drop_last()) + hex_byte_text(bytes.last())
    }
}

/// `prefix` followed by the bytes in lowercase hex.
pub fn hex_id(prefix: &str, bytes: &Vec<u8>) -> (r: String)
    ensures
        r@ == prefix@ + hex_text(bytes@),
{
    let mut out = string_of(prefix);
    let n = bytes.len();
    let mut i: usize = 0;
    assert(bytes@.subrange(0, 0) =~= Seq::<u8>::empty());
    while i < n
        invariant
            0 <= i <= n,
            n == bytes@.len(),
            out@ == prefix@ + hex_text(bytes@.subrange(0, i as int)),
        decreases n - i,
    {
        push_hex_byte(&mut out, bytes[i], false);
        assert(bytes@.subrange(0, i + 1).drop_last() =~= bytes@.subrange(0, i as int));
        i = i + 1;
        assert(out@ =~= prefix@ + hex_text(bytes@.subrange(0, i as int)));
    }
    assert(bytes@.subrange(0, n as int) =~= bytes@);
    out
}

/// A fresh random id: `prefix` and six random bytes in hex.
pub fn random_id(prefix: &str) -> (r: String)
    ensures
        exists|b: Seq<u8>| b.len() == 6 && r@ == prefix@ + hex_text(b),
{
    let bytes = random_bytes(6);
    hex_id(prefix, &bytes)
}

/// `imp-{year:04}-{month:02}-{day:02}-{r0:02x}{r1:02x}{r2:02x}`.
pub open spec fn import_id_text(year: int, month: nat, day: nat, rnd: Seq<u8>) -> Seq<char> {
    "imp-"@ + padded_signed_text(year, 4) + "-"@ + padded_text(month, 2) + "-"@ + padded_text(day, 2)
        + "-"@ + hex_text(rnd)
}

/// Import id from a date and three random bytes.
pub fn format_import_id(year: i32, month: u8, day: u8, rnd: &Vec<u8>) -> (r: String)
    requires
        year > i32::MIN,
    ensures
        r@ == import_id_text(year as int, month as nat, day as nat, rnd@),
{
    let mut out = string_of("imp-");
    push_padded_signed(&mut out, year as i64, 4);
    out.append("-");
    push_padded(&mut out, month as u128, 2);
    out.append("-");
    push_padded(&mut out, day as u128, 2);
    let tail = hex_id("-", rnd);
    out.append(tail.as_str());
    out
}

/// A fresh import id stamped with today's UTC date.
pub fn make_import_id() -> (r: String)
    ensures
        exists|y: int, m: nat, d: nat, b: Seq<u8>|
            -999999 <= y <= 999999 && 1 <= m <= 12 && 1 <= d <= 31 && b.len() == 3 && r@
                == import_id_text(y, m, d, b),
{
    let now = utc_now();
    let year = utc_year(now);
    let month = utc_month(now);
    let day = utc_day(now);
    let rnd = random_bytes(3);
    format_import_id(year, month, day, &rnd)
}

} // verus!
