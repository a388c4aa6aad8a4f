//! The process clock, the one ambient input: everything else takes "now" as
//! an argument.

use vstd::prelude::*;
use crate::timestamp::Timestamp;
use chrono::Datelike;
use chrono::Timelike;

verus! {

/// Relies on chrono::Local::now for the current local wall-clock time.
/// chrono keeps every date within its documented year range (about
/// -262143 to 262142, well inside this library's), months in 1..=12, days
/// within the month, hours below 24 and minutes and seconds below 60, so
/// the fields always form a valid timestamp. Nothing more can be promised
/// of a clock reading.
#[verifier::external_body]
pub fn now_timestamp() -> (r: Timestamp)
    ensures
        r.valid(),
{
    let n = chrono::Local::now().naive_local();
    Timestamp {
        year: n.year(),
        month: n.month(),
        day: n.day(),
        hour: n.hour(),
        minute: n.minute(),
        second: n.second(),
    }
}

} // verus!
