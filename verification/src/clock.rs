//! The wall clock that partition identifiers are drawn from.

use vstd::prelude::*;

verus! {

/// Reads the wall clock through `time::OffsetDateTime::now_utc` and returns
/// `unix_timestamp_nanos` of it, reinterpreted as an unsigned number.
///
/// Nothing is promised of the value: two readings may be equal, and a later
/// reading may be smaller than an earlier one.
#[verifier::external_body]
pub(crate) fn now_nanos() -> (nanos: u128) {
    time::OffsetDateTime::now_utc().unix_timestamp_nanos() as u128
}

} // verus!
