//! Instants in writing. An instant is a number of nanoseconds since the Unix epoch.

use vstd::prelude::*;

verus! {

broadcast use vstd::string::group_string_axioms;

/// What `chrono` writes for an instant with `Z` for the zone, where the calendar has it.
pub uninterp spec fn zulu(secs: i64, nanos: u32) -> Option<Seq<char>>;

/// What `chrono` writes for an instant with the offset of the zone, where the calendar has it.
pub uninterp spec fn offset_notation(secs: i64, nanos: u32) -> Option<Seq<char>>;

/// `chrono::DateTime::from_timestamp` and `to_rfc3339_opts` with `AutoSi` and `Z`, which is also how
/// an instant stands in JSON.
#[verifier::external_body]
fn write_zulu(secs: i64, nanos: u32) -> (r: Option<String>)
    ensures
        crate::text::opt_view(r) == zulu(secs, nanos),
{
    match chrono::DateTime::from_timestamp(secs, nanos) {
        Some(t) => Some(t.to_rfc3339_opts(chrono::SecondsFormat::AutoSi, true)),
        None => None,
    }
}

/// `chrono::DateTime::from_timestamp` and `to_rfc3339`.
#[verifier::external_body]
fn write_offset(secs: i64, nanos: u32) -> (r: Option<String>)
    ensures
        crate::text::opt_view(r) == offset_notation(secs, nanos),
{
    match chrono::DateTime::from_timestamp(secs, nanos) {
        Some(t) => Some(t.to_rfc3339()),
        None => None,
    }
}

/// The whole seconds of an instant.
pub open spec fn seconds(t: i128) -> int {
    t as int / 1_000_000_000
}

/// The nanoseconds behind them.
pub open spec fn fraction(t: i128) -> u32 {
    (t as int % 1_000_000_000) as u32
}

/// An instant with `Z` for the zone, as JSON has it.
pub open spec fn json_instant(t: i128) -> Option<Seq<char>> {
    if i64::MIN <= seconds(t) <= i64::MAX {
        zulu(seconds(t) as i64, fraction(t))
    } else {
        None
    }
}

/// An instant with the offset of the zone.
pub open spec fn instant(t: i128) -> Option<Seq<char>> {
    if i64::MIN <= seconds(t) <= i64::MAX {
        offset_notation(seconds(t) as i64, fraction(t))
    } else {
        None
    }
}

/// The seconds and the fraction of an instant, where the seconds fit.
fn parts(t: i128) -> (r: Option<(i64, u32)>)
    ensures
        r == if i64::MIN <= seconds(t) <= i64::MAX {
            Some((seconds(t) as i64, fraction(t)))
        } else {
            None
        },
{
    let whole: i128 = if t >= 0 {
        t / 1_000_000_000
    } else {
        -((-(t + 1)) / 1_000_000_000) - 1
    };
    if whole < -0x8000_0000_0000_0000i128 || whole > 0x7fff_ffff_ffff_ffffi128 {
        return None;
    }
    let rest: i128 = t - whole * 1_000_000_000;
    Some((whole as i64, rest as u32))
}

/// Writes an instant as JSON has it.
pub fn json_text(t: i128) -> (r: Option<String>)
    ensures
        crate::text::opt_view(r) == json_instant(t),
{
    match parts(t) {
        Some((secs, nanos)) => write_zulu(secs, nanos),
        None => None,
    }
}

/// Writes an instant with the offset of the zone.
pub fn text(t: i128) -> (r: Option<String>)
    ensures
        crate::text::opt_view(r) == instant(t),
{
    match parts(t) {
        Some((secs, nanos)) => write_offset(secs, nanos),
        None => None,
    }
}

} // verus!
