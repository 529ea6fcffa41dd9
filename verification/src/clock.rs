//! Wall-clock reading, behind a trusted wrapper: the store stamps branch
//! creations and version commits with the current time.

use vstd::prelude::*;

verus! {

/// Relies on chrono's `Utc::now` and `timestamp_millis`: the current time
/// in milliseconds since the epoch.  Nothing is promised of a clock
/// reading; callers state what holds of every outcome.  Note that
/// `Utc::now` itself panics on a machine whose clock reads before the
/// epoch; that is environmental, not input-dependent, so no `requires`
/// can exclude it.
#[verifier::external_body]
pub(crate) fn now_millis() -> i64 {
    chrono::Utc::now().timestamp_millis()
}

} // verus!
