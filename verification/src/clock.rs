//! The one place where the store reads the wall clock.

use vstd::prelude::*;

verus! {

/// Relies on time::OffsetDateTime::now_utc for the current wall-clock time,
/// read off as a Unix timestamp in seconds via
/// time::OffsetDateTime::unix_timestamp. Nothing can be promised about which
/// instant comes back; the bound follows from the crate's supported date range
/// (years -9999 through 9999, under 400 billion seconds away from 1970).
#[verifier::external_body]
pub(crate) fn now_unix_timestamp() -> (r: i64)
    ensures
        -400_000_000_000 <= r <= 400_000_000_000,
{
    time::OffsetDateTime::now_utc().unix_timestamp()
}

} // verus!
