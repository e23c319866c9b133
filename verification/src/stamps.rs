//! Identifiers and clock readings, which come from outside the library: a fresh
//! identifier is random and a clock reading depends on when it is taken, so nothing
//! is promised of them beyond their shape.

use vstd::prelude::*;

verus! {

/// Whether `c` is a lower-case hexadecimal digit.
pub open spec fn is_lower_hex(c: char) -> bool {
    ('0' <= c && c <= '9') || ('a' <= c && c <= 'f')
}

/// Whether `s` is a version-4 UUID in hyphenated lower-case form: 36 characters, hyphens at
/// positions 8, 13, 18 and 23 and lower-case hexadecimal digits elsewhere, the version digit
/// `4` at position 14 and a variant digit from `8` to `b` at position 19.
pub open spec fn uuid_shaped(s: Seq<char>) -> bool {
    &&& s.len() == 36
    &&& forall|i: int|
        0 <= i < 36 ==> if i == 8 || i == 13 || i == 18 || i == 23 {
            s[i] == '-'
        } else {
            is_lower_hex(#[trigger] s[i])
        }
    &&& s[14] == '4'
    &&& s[19] == '8' || s[19] == '9' || s[19] == 'a' || s[19] == 'b'
}

/// A fresh random identifier: `uuid::Uuid::new_v4()` written with its `Display` impl, which
/// writes the hyphenated lower-case form; `new_v4` sets the version bits to 4 and the variant
/// bits to `10`. Which identifier comes back is random and is not stated.
#[verifier::external_body]
pub(crate) fn new_identifier() -> (id: String)
    ensures
        uuid_shaped(id@),
{
    uuid::Uuid::new_v4().to_string()
}

/// Reads the system clock with `SystemTime::elapsed` on `UNIX_EPOCH`: the time from the epoch
/// to the current system time, as whole seconds and the nanoseconds past them (the `Duration`
/// read with `as_secs` and `subsec_nanos`, which is always below one billion); nothing when the
/// clock reads earlier than the epoch (the error of `elapsed`). Which reading comes back
/// depends on the time of the call.
#[verifier::external_body]
fn system_clock() -> (r: Option<(u64, u32)>)
    ensures
        r matches Some(t) ==> t.1 < 1_000_000_000,
{
    match std::time::UNIX_EPOCH.elapsed() {
        Ok(d) => Some((d.as_secs(), d.subsec_nanos())),
        Err(_) => None,
    }
}

/// Makes a UTC time with `chrono::DateTime::from_timestamp(secs, nsecs)` and reads it back
/// with `timestamp()`. chrono documents that the two round-trip, so a result is `secs`; it
/// gives nothing for seconds out of its range or an invalid nanosecond count (which seconds
/// are in its range is not stated here).
#[verifier::external_body]
fn chrono_timestamp(secs: i64, nsecs: u32) -> (r: Option<i64>)
    ensures
        r matches Some(t) ==> t == secs,
{
    match chrono::DateTime::from_timestamp(secs, nsecs) {
        Some(t) => Some(t.timestamp()),
        None => None,
    }
}

/// The current UTC time in seconds since the Unix epoch, as `chrono::Utc::now()` builds it:
/// the system clock made a UTC time by chrono. Nothing when the clock reads earlier than the
/// epoch or beyond what chrono represents, the cases in which `Utc::now` panics.
pub(crate) fn utc_reading() -> (r: Option<u64>) {
    match system_clock() {
        Some((secs, nsecs)) => {
            if secs <= 0x7fff_ffff_ffff_ffffu64 {
                match chrono_timestamp(secs as i64, nsecs) {
                    Some(t) => Some(t as u64),
                    None => None,
                }
            } else {
                None
            }
        },
        None => None,
    }
}

/// The current UTC time in seconds since the Unix epoch (see `utc_reading`), or 0 when there
/// is none.
pub(crate) fn utc_now_secs() -> (secs: u64) {
    match utc_reading() {
        Some(t) => t,
        None => 0,
    }
}

/// The system clock in whole seconds since the Unix epoch; a clock set before the epoch
/// reads as 0.
pub(crate) fn system_now_secs() -> (secs: u64) {
    match system_clock() {
        Some((secs, _)) => secs,
        None => 0,
    }
}

} // verus!
