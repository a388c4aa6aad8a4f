//! The persisted unit of work: an alarm record and the notification text it
//! is announced with.

use vstd::prelude::*;
use crate::timestamp::Timestamp;
use crate::text::{dec_str, pad2_str, month_abbrev, u64_to_string, pad2_string, month_abbrev_str};

verus! {

/// A stored reminder: a due time and a label under a small integer id.
#[derive(Debug)]
pub struct Alarm {
    pub id: usize,
    pub time: Timestamp,
    pub label: String,
}

impl Alarm {
    pub fn new(id: usize, time: Timestamp, label: String) -> (a: Alarm)
        ensures
            a.id == id,
            a.time == time,
            a.label == label,
    {
        Alarm { id, time, label }
    }

    /// Title line of the alarm's desktop notification.
    pub open spec fn spec_summary(self) -> Seq<char> {
        "ALARM: "@ + self.label@
    }

    /// Body line of the alarm's desktop notification: zero-padded hour and
    /// minute, then the abbreviated month and unpadded day.
    pub open spec fn spec_body(self) -> Seq<char> {
        pad2_str(self.time.hour as int) + ":"@ + pad2_str(self.time.minute as int) + " on "@
            + month_abbrev(self.time.month as int) + " "@ + dec_str(self.time.day as int)
    }

    pub fn notification_summary(&self) -> (r: String)
        ensures
            r@ == self.spec_summary(),
    {
        let mut s = String::from_str("ALARM: ");
        s.append(self.label.as_str());
        s
    }

    pub fn notification_body(&self) -> (r: String)
        requires
            self.time.valid(),
        ensures
            r@ == self.spec_body(),
    {
        let mut s = pad2_string(self.time.hour as u64);
        s.append(":");
        let m = pad2_string(self.time.minute as u64);
        s.append(m.as_str());
        s.append(" on ");
        s.append(month_abbrev_str(self.time.month));
        s.append(" ");
        let d = u64_to_string(self.time.day as u64);
        s.append(d.as_str());
        proof {
            assert(s@ =~= self.spec_body());
        }
        s
    }
}

} // verus!
