//! Calls into std and outside crates that the protocol logic relies on, each
//! with the contract that the callee's documentation gives it.

use vstd::prelude::*;
use vstd::utf8::{decode_utf8, is_ascii_chars, valid_utf8};

verus! {

/// Milliseconds since the Unix epoch of chrono's `DateTime::<Utc>::MIN_UTC`
/// (the start of year -262143).
pub const MIN_UTC_MILLIS: i64 = -8334601228800000;

/// Milliseconds since the Unix epoch of the last millisecond of chrono's
/// `DateTime::<Utc>::MAX_UTC` (the end of year 262142).
pub const MAX_UTC_MILLIS: i64 = 8210266876799999;

/// Whether a millisecond count since the Unix epoch names an instant that
/// chrono's `DateTime<Utc>` can represent.
pub open spec fn utc_millis_in_range(ms: i64) -> bool {
    MIN_UTC_MILLIS <= ms <= MAX_UTC_MILLIS
}

/// Relies on `chrono::DateTime::<Utc>::from_timestamp_millis`, which returns
/// `None` exactly on millisecond counts outside `MIN_UTC..=MAX_UTC`.
#[verifier::external_body]
pub(crate) fn millis_representable(ms: i64) -> (r: bool)
    ensures
        r == utc_millis_in_range(ms),
{
    chrono::DateTime::<chrono::Utc>::from_timestamp_millis(ms).is_some()
}

/// Relies on `chrono::Utc::now` and `DateTime::timestamp_millis`: the current
/// time in milliseconds, which round-trips through `from_timestamp_millis`.
#[verifier::external_body]
pub(crate) fn now_millis() -> (r: i64)
    ensures
        utc_millis_in_range(r),
{
    chrono::Utc::now().timestamp_millis()
}

/// Relies on `uuid::Uuid::new_v4` and its `Display`, the hyphenated form:
/// 36 ASCII characters.
#[verifier::external_body]
pub(crate) fn new_uuid_string() -> (r: String)
    ensures
        r@.len() == 36,
        is_ascii_chars(r@),
{
    uuid::Uuid::new_v4().to_string()
}

/// Relies on `String::from_utf8`: it succeeds exactly on well-formed UTF-8 and
/// then holds the characters those bytes encode.
#[verifier::external_body]
pub(crate) fn string_from_utf8(b: Vec<u8>) -> (r: Option<String>)
    ensures
        r is Some <==> valid_utf8(b@),
        r matches Some(s) ==> s@ == decode_utf8(b@),
{
    String::from_utf8(b).ok()
}

} // verus!
