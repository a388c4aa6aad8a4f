//! The daemon's decision core: the request/response protocol against the
//! store contents, the sweep that separates due alarms from pending ones,
//! and the choice of the next wake time. All of it is pure: the surrounding
//! process reads the store, calls in, and persists and transmits what comes
//! back.

use vstd::prelude::*;
use crate::data::Alarm;
use crate::text::dec_str;
use crate::text::u64_to_string;
use crate::time::ParseError;
use crate::time::parse_time;
use crate::time::spec_parse_time;
use crate::timestamp::Timestamp;

verus! {

/// One client request, as carried over the local channel.
pub enum Request {
    /// Create a new alarm from a time expression and a label.
    New(String, String),
    /// List all alarms.
    List,
    /// Delete an alarm by id.
    Del(usize),
}

/// One reply to a client.
pub enum Response {
    Message(String),
    Alarms(Vec<Alarm>),
}

/// Outcome of one request against the store contents.
pub struct Handled {
    /// Contents to persist, where the request mutates the store.
    pub new_store: Option<Vec<Alarm>>,
    pub response: Response,
    /// Whether the scheduler must recompute its wake time.
    pub reschedule: bool,
}

pub open spec fn id_taken(s: Seq<Alarm>, id: int) -> bool {
    exists|k: int| 0 <= k < s.len() && s[k].id == id
}

pub open spec fn alarms_valid(s: Seq<Alarm>) -> bool {
    forall|k: int| 0 <= k < s.len() ==> (#[trigger] s[k]).time.valid()
}

/// The alarms due at `now` (time at or before it), in store order.
pub open spec fn spec_due(s: Seq<Alarm>, now: Timestamp) -> Seq<Alarm>
    decreases s.len(),
{
    if s.len() == 0 {
        Seq::empty()
    } else if s.last().time.epoch_sec() <= now.epoch_sec() {
        spec_due(s.drop_last(), now).push(s.last())
    } else {
        spec_due(s.drop_last(), now)
    }
}

/// The alarms still pending at `now` (time strictly after it), in store
/// order.
pub open spec fn spec_pending(s: Seq<Alarm>, now: Timestamp) -> Seq<Alarm>
    decreases s.len(),
{
    if s.len() == 0 {
        Seq::empty()
    } else if s.last().time.epoch_sec() > now.epoch_sec() {
        spec_pending(s.drop_last(), now).push(s.last())
    } else {
        spec_pending(s.drop_last(), now)
    }
}

/// The store after deleting `id`: every other alarm kept unchanged, in
/// order.
pub open spec fn spec_del(s: Seq<Alarm>, id: int) -> Seq<Alarm>
    decreases s.len(),
{
    if s.len() == 0 {
        Seq::empty()
    } else if s.last().id == id {
        spec_del(s.drop_last(), id)
    } else {
        spec_del(s.drop_last(), id).push(s.last())
    }
}

/// The confirmation sent back after a `New`, naming the whole hours and
/// leftover minutes until the alarm; a non-positive remainder leaves both
/// parts out.
pub open spec fn spec_remaining_msg(next: Timestamp, now: Timestamp) -> Seq<char> {
    let d = next.epoch_sec() - now.epoch_sec();
    let hours = if d >= 0 {
        d / 3600
    } else {
        0
    };
    let mins = if d >= 0 {
        (d / 60) % 60
    } else {
        0
    };
    let base = "Alarm set for"@;
    let with_h = if hours > 0 {
        base + " "@ + dec_str(hours) + " hours"@
    } else {
        base
    };
    let with_m = if mins > 0 {
        with_h + " "@ + dec_str(mins) + " minutes"@
    } else {
        with_h
    };
    with_m + " from now."@
}

fn id_in(alarms: &Vec<Alarm>, id: usize) -> (r: bool)
    ensures
        r == id_taken(alarms@, id as int),
{
    let mut k: usize = 0;
    while k < alarms.len()
        invariant
            k <= alarms@.len(),
            forall|j: int| 0 <= j < k ==> alarms@[j].id != id,
        decreases alarms@.len() - k,
    {
        if alarms[k].id == id {
            return true;
        }
        k = k + 1;
    }
    false
}

/// The lowest id in [0, 9999) not yet used by any stored alarm.
pub fn find_next_id(alarms: &Vec<Alarm>) -> (r: usize)
    requires
        exists|i: int| 0 <= i < 9999 && !id_taken(alarms@, i),
    ensures
        r < 9999,
        !id_taken(alarms@, r as int),
        forall|j: int| 0 <= j < r ==> id_taken(alarms@, j),
{
    let mut i: usize = 0;
    while i < 9999
        invariant
            i <= 9999,
            forall|j: int| 0 <= j < i ==> id_taken(alarms@, j),
        decreases 9999 - i,
    {
        if !id_in(alarms, i) {
            return i;
        }
        i = i + 1;
    }
    // Unreachable: some id below 9999 is free, so the loop returned.
    proof {
        assert(false);
    }
    0
}

/// Partitions the store into (due, pending) around `now`: exactly the
/// sweep's split, both halves in store order.
pub fn sweep(alarms: Vec<Alarm>, now: &Timestamp) -> (r: (Vec<Alarm>, Vec<Alarm>))
    requires
        now.valid(),
        alarms_valid(alarms@),
    ensures
        r.0@ == spec_due(alarms@, *now),
        r.1@ == spec_pending(alarms@, *now),
{
    let ghost orig = alarms@;
    let mut rest = alarms;
    let orig_len = rest.len();
    let mut due: Vec<Alarm> = Vec::new();
    let mut pending: Vec<Alarm> = Vec::new();
    let now_e = now.epoch_seconds();
    let mut k: usize = 0;
    while rest.len() > 0
        invariant
            now.valid(),
            alarms_valid(orig),
            now_e == now.epoch_sec(),
            orig_len == orig.len(),
            k + rest@.len() == orig.len(),
            rest@ =~= orig.skip(k as int),
            due@ == spec_due(orig.take(k as int), *now),
            pending@ == spec_pending(orig.take(k as int), *now),
        decreases rest@.len(),
    {
        let a = rest.remove(0);
        proof {
            assert(a == orig[k as int]);
            assert(orig.take(k + 1).drop_last() =~= orig.take(k as int));
            assert(orig.take(k + 1).last() == orig[k as int]);
            assert(rest@ =~= orig.skip(k + 1));
        }
        let ae = a.time.epoch_seconds();
        if ae <= now_e {
            due.push(a);
        } else {
            pending.push(a);
        }
        k = k + 1;
    }
    proof {
        assert(orig.take(orig.len() as int) =~= orig);
    }
    (due, pending)
}

/// Removes every alarm whose id matches, keeping the rest in order.
fn del_alarms(alarms: Vec<Alarm>, id: usize) -> (r: Vec<Alarm>)
    ensures
        r@ == spec_del(alarms@, id as int),
{
    let ghost orig = alarms@;
    let mut rest = alarms;
    let orig_len = rest.len();
    let mut kept: Vec<Alarm> = Vec::new();
    let mut k: usize = 0;
    while rest.len() > 0
        invariant
            orig_len == orig.len(),
            k + rest@.len() == orig.len(),
            rest@ =~= orig.skip(k as int),
            kept@ == spec_del(orig.take(k as int), id as int),
        decreases rest@.len(),
    {
        let a = rest.remove(0);
        proof {
            assert(a == orig[k as int]);
            assert(orig.take(k + 1).drop_last() =~= orig.take(k as int));
            assert(orig.take(k + 1).last() == orig[k as int]);
            assert(rest@ =~= orig.skip(k + 1));
        }
        if a.id != id {
            kept.push(a);
        }
        k = k + 1;
    }
    proof {
        assert(orig.take(orig.len() as int) =~= orig);
    }
    kept
}

/// The due time of the soonest alarm strictly after `now`, if any is
/// pending.
pub fn find_next(alarms: &Vec<Alarm>, now: &Timestamp) -> (r: Option<Timestamp>)
    requires
        now.valid(),
        alarms_valid(alarms@),
    ensures
        match r {
            Some(t) => {
                &&& t.valid()
                &&& t.epoch_sec() > now.epoch_sec()
                &&& exists|k: int| 0 <= k < alarms@.len() && alarms@[k].time == t
                &&& forall|k: int|
                    0 <= k < alarms@.len() && (#[trigger] alarms@[k]).time.epoch_sec()
                        > now.epoch_sec() ==> t.epoch_sec() <= alarms@[k].time.epoch_sec()
            },
            None => forall|k: int|
                0 <= k < alarms@.len() ==> (#[trigger] alarms@[k]).time.epoch_sec()
                    <= now.epoch_sec(),
        },
{
    let now_e = now.epoch_seconds();
    let mut best: Option<Timestamp> = None;
    let mut i: usize = 0;
    while i < alarms.len()
        invariant
            now.valid(),
            alarms_valid(alarms@),
            now_e == now.epoch_sec(),
            i <= alarms@.len(),
            match best {
                Some(b) => {
                    &&& b.valid()
                    &&& b.epoch_sec() > now.epoch_sec()
                    &&& exists|k: int| 0 <= k < i && alarms@[k].time == b
                    &&& forall|k: int|
                        0 <= k < i && (#[trigger] alarms@[k]).time.epoch_sec() > now.epoch_sec()
                            ==> b.epoch_sec() <= alarms@[k].time.epoch_sec()
                },
                None => forall|k: int|
                    0 <= k < i ==> (#[trigger] alarms@[k]).time.epoch_sec() <= now.epoch_sec(),
            },
        decreases alarms@.len() - i,
    {
        let t = alarms[i].time;
        let te = t.epoch_seconds();
        if te > now_e {
            match best {
                None => {
                    best = Some(t);
                },
                Some(b) => {
                    if te < b.epoch_seconds() {
                        best = Some(t);
                    }
                },
            }
        }
        i = i + 1;
    }
    best
}

/// Seconds to sleep until `next`; clock skew past the due time waits not at
/// all.
pub fn wait_seconds(next: &Timestamp, now: &Timestamp) -> (r: u64)
    requires
        next.valid(),
        now.valid(),
    ensures
        r == (if next.epoch_sec() > now.epoch_sec() {
            next.epoch_sec() - now.epoch_sec()
        } else {
            0
        }),
{
    proof {
        crate::timestamp::lemma_epoch_sec_bounds(*next);
        crate::timestamp::lemma_epoch_sec_bounds(*now);
    }
    let ne = next.epoch_seconds();
    let we = now.epoch_seconds();
    if ne > we {
        (ne - we) as u64
    } else {
        0
    }
}

/// The message a `New` request is answered with.
pub fn get_remaining_time_msg(next: &Timestamp, now: &Timestamp) -> (r: String)
    requires
        next.valid(),
        now.valid(),
    ensures
        r@ == spec_remaining_msg(*next, *now),
{
    proof {
        crate::timestamp::lemma_epoch_sec_bounds(*next);
        crate::timestamp::lemma_epoch_sec_bounds(*now);
    }
    let ne = next.epoch_seconds();
    let we = now.epoch_seconds();
    let mut s = String::from_str("Alarm set for");
    if ne > we {
        let d: u64 = (ne - we) as u64;
        let hours = d / 3600;
        if hours > 0 {
            s.append(" ");
            let h = u64_to_string(hours);
            s.append(h.as_str());
            s.append(" hours");
        }
        let mins = (d / 60) % 60;
        if mins > 0 {
            s.append(" ");
            let m = u64_to_string(mins);
            s.append(m.as_str());
            s.append(" minutes");
        }
    }
    s.append(" from now.");
    proof {
        assert(s@ =~= spec_remaining_msg(*next, *now));
    }
    s
}

/// The notifications a sweep's due half owes: one (summary, body) pair per
/// due alarm, in order, each naming that alarm's label and formatted time.
pub fn notification_texts(due: &Vec<Alarm>) -> (r: Vec<(String, String)>)
    requires
        alarms_valid(due@),
    ensures
        r@.len() == due@.len(),
        forall|k: int|
            0 <= k < due@.len() ==> (#[trigger] r@[k]).0@ == due@[k].spec_summary() && r@[k].1@
                == due@[k].spec_body(),
{
    let mut out: Vec<(String, String)> = Vec::new();
    let mut i: usize = 0;
    while i < due.len()
        invariant
            alarms_valid(due@),
            i <= due@.len(),
            out@.len() == i,
            forall|k: int|
                0 <= k < i ==> (#[trigger] out@[k]).0@ == due@[k].spec_summary() && out@[k].1@
                    == due@[k].spec_body(),
        decreases due@.len() - i,
    {
        let s = due[i].notification_summary();
        let b = due[i].notification_body();
        out.push((s, b));
        i = i + 1;
    }
    out
}

/// Deleting an id removes exactly the alarms bearing it: none of them
/// survives, and every other alarm is kept, unchanged and in order.
pub proof fn lemma_del_exact(s: Seq<Alarm>, id: int)
    ensures
        forall|k: int| 0 <= k < spec_del(s, id).len() ==> (#[trigger] spec_del(s, id)[k]).id != id,
        forall|k: int|
            0 <= k < s.len() && (#[trigger] s[k]).id != id ==> spec_del(s, id).contains(s[k]),
        spec_del(s, id).len() <= s.len(),
    decreases s.len(),
{
    if s.len() > 0 {
        lemma_del_exact(s.drop_last(), id);
        assert forall|k: int|
            0 <= k < s.len() && (#[trigger] s[k]).id != id implies spec_del(s, id).contains(
            s[k],
        ) by {
            if k < s.len() - 1 {
                assert(s.drop_last()[k] == s[k]);
                assert(spec_del(s.drop_last(), id).contains(s[k]));
                let j = choose|j: int|
                    0 <= j < spec_del(s.drop_last(), id).len() && spec_del(s.drop_last(), id)[j]
                        == s[k];
                if s.last().id == id {
                    assert(spec_del(s, id)[j] == s[k]);
                } else {
                    assert(spec_del(s, id)[j] == s[k]);
                }
            } else {
                assert(spec_del(s, id).last() == s[k]);
            }
        }
    }
}

/// Deleting an id that no stored alarm bears leaves the store exactly as it
/// was.
pub proof fn lemma_del_absent(s: Seq<Alarm>, id: int)
    requires
        !id_taken(s, id),
    ensures
        spec_del(s, id) == s,
    decreases s.len(),
{
    if s.len() > 0 {
        assert forall|k: int| 0 <= k < s.drop_last().len() implies (#[trigger] s.drop_last()[k]).id
            != id by {
            assert(s.drop_last()[k] == s[k]);
        }
        lemma_del_absent(s.drop_last(), id);
        assert(s[s.len() - 1].id != id);
        assert(spec_del(s, id) =~= s);
    }
}

/// A sweep separates the store without loss: every alarm lands in the due
/// half exactly when its time is at or before "now", and in the pending
/// half otherwise.
pub proof fn lemma_sweep_partition(s: Seq<Alarm>, now: Timestamp)
    ensures
        spec_due(s, now).len() + spec_pending(s, now).len() == s.len(),
        forall|k: int|
            0 <= k < spec_due(s, now).len() ==> (#[trigger] spec_due(s, now)[k]).time.epoch_sec()
                <= now.epoch_sec(),
        forall|k: int|
            0 <= k < spec_pending(s, now).len() ==> (#[trigger] spec_pending(
                s,
                now,
            )[k]).time.epoch_sec() > now.epoch_sec(),
    decreases s.len(),
{
    if s.len() > 0 {
        lemma_sweep_partition(s.drop_last(), now);
    }
}

/// Sweeping is idempotent: what one sweep keeps, a second sweep with the
/// same "now" keeps unchanged and finds nothing due.
pub proof fn lemma_sweep_idempotent(s: Seq<Alarm>, now: Timestamp)
    ensures
        spec_pending(spec_pending(s, now), now) == spec_pending(s, now),
        spec_due(spec_pending(s, now), now) == Seq::<Alarm>::empty(),
    decreases s.len(),
{
    if s.len() == 0 {
        assert(spec_pending(spec_pending(s, now), now) =~= spec_pending(s, now));
        assert(spec_due(spec_pending(s, now), now) =~= Seq::<Alarm>::empty());
    } else {
        lemma_sweep_idempotent(s.drop_last(), now);
        let p = spec_pending(s.drop_last(), now);
        if s.last().time.epoch_sec() > now.epoch_sec() {
            assert(spec_pending(s, now) == p.push(s.last()));
            assert(p.push(s.last()).drop_last() =~= p);
            assert(spec_pending(p.push(s.last()), now) =~= p.push(s.last()));
            assert(spec_due(p.push(s.last()), now) =~= Seq::<Alarm>::empty());
        }
    }
}

/// Performs one request against the given store contents: the whole
/// protocol step, minus the channel and the file around it.
pub fn handle_request(req: Request, alarms: Vec<Alarm>, now: &Timestamp) -> (r: Result<
    Handled,
    ParseError,
>)
    requires
        now.valid(),
        alarms_valid(alarms@),
        req matches Request::New(_, _) ==> exists|i: int| 0 <= i < 9999 && !id_taken(alarms@, i),
    ensures
        match req {
            Request::New(expr, label) => match spec_parse_time(expr@, *now) {
                Some(t) => r matches Ok(h) && {
                    &&& h.new_store matches Some(ns) && {
                        &&& ns@.len() == alarms@.len() + 1
                        &&& ns@.drop_last() == alarms@
                        &&& ns@.last().time == t
                        &&& ns@.last().label == label
                        &&& ns@.last().id < 9999
                        &&& !id_taken(alarms@, ns@.last().id as int)
                        &&& forall|j: int| 0 <= j < ns@.last().id ==> id_taken(alarms@, j)
                    }
                    &&& h.reschedule
                    &&& h.response matches Response::Message(m) && m@ == spec_remaining_msg(
                        t,
                        *now,
                    )
                },
                None => r == Err::<Handled, ParseError>(ParseError),
            },
            Request::List => r matches Ok(h) && {
                &&& h.new_store is None
                &&& !h.reschedule
                &&& h.response matches Response::Alarms(v) && v@ == alarms@
            },
            Request::Del(id) => r matches Ok(h) && {
                &&& h.new_store matches Some(ns) && ns@ == spec_del(alarms@, id as int)
                &&& h.reschedule
                &&& h.response matches Response::Message(m) && m@ == "deleted alarm"@
            },
        },
{
    match req {
        Request::New(expr, label) => {
            match parse_time(expr.as_str(), now) {
                Err(e) => Err(e),
                Ok(t) => {
                    let id = find_next_id(&alarms);
                    let msg = get_remaining_time_msg(&t, now);
                    let ghost before = alarms@;
                    let mut ns = alarms;
                    ns.push(Alarm::new(id, t, label));
                    proof {
                        assert(ns@.drop_last() =~= before);
                    }
                    Ok(
                        Handled {
                            new_store: Some(ns),
                            response: Response::Message(msg),
                            reschedule: true,
                        },
                    )
                },
            }
        },
        Request::List => Ok(
            Handled { new_store: None, response: Response::Alarms(alarms), reschedule: false },
        ),
        Request::Del(id) => {
            let ns = del_alarms(alarms, id);
            Ok(
                Handled {
                    new_store: Some(ns),
                    response: Response::Message(String::from_str("deleted alarm")),
                    reschedule: true,
                },
            )
        },
    }
}

} // verus!
