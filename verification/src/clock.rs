//! The present time.

use vstd::prelude::*;

verus! {

/// `chrono::Utc::now`: the present time, as the whole seconds since the
/// Unix epoch and written as RFC 3339 asks. Nothing is claimed of either.
#[verifier::external_body]
pub(crate) fn utc_now() -> (i64, String) {
    let now = chrono::Utc::now();
    (now.timestamp(), now.to_rfc3339())
}

/// The time stamp for a count of seconds since the Unix epoch: the count,
/// or 0 for a time before the epoch.
pub fn time_stamp(seconds: i64) -> (res: u64)
    ensures
        res == if seconds < 0 {
            0
        } else {
            seconds as int
        },
{
    if seconds < 0 {
        0
    } else {
        seconds as u64
    }
}

} // verus!
