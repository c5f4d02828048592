//! The time at which a commit is made.

use crate::bytes::lacks;
use crate::index::NEWLINE;
use vstd::prelude::*;

verus! {

/// Reads the system clock and writes the time out with `chrono`: the time
/// since `std::time::UNIX_EPOCH`, from `SystemTime::elapsed`, is made a date
/// by `DateTime::from_timestamp` and a text by `DateTime::to_rfc3339`.
/// `None` stands for a clock that reads before 1970 or beyond the dates that
/// `chrono` holds. The text differs from call to call; all that is claimed
/// of it is that it is on one line, since `to_rfc3339` writes digits, signs,
/// `-`, `:`, `.` and `T` only.
#[verifier::external_body]
pub(crate) fn now_rfc3339() -> (text: Option<Vec<u8>>)
    ensures
        text matches Some(t) ==> lacks(t@, NEWLINE),
{
    let since = std::time::UNIX_EPOCH.elapsed().ok()?;
    let seconds = i64::try_from(since.as_secs()).ok()?;
    let stamp = chrono::DateTime::from_timestamp(seconds, since.subsec_nanos())?;
    Some(stamp.to_rfc3339().into_bytes())
}

} // verus!
