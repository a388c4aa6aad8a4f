use alarm::daemon::{
    find_next, find_next_id, get_remaining_time_msg, handle_request, sweep, wait_seconds, Request,
    Response,
};
use alarm::data::Alarm;
use alarm::timestamp::Timestamp;

fn ts(year: i32, month: u32, day: u32, hour: u32, minute: u32, second: u32) -> Timestamp {
    Timestamp::new(year, month, day, hour, minute, second).expect("valid timestamp")
}

fn alarm(id: usize, time: Timestamp, label: &str) -> Alarm {
    Alarm::new(id, time, String::from(label))
}

#[test]
fn next_id_on_empty_store_is_zero() {
    let alarms: Vec<Alarm> = Vec::new();
    assert_eq!(find_next_id(&alarms), 0);
}

#[test]
fn next_id_fills_the_lowest_gap() {
    let t = ts(2024, 6, 7, 10, 0, 0);
    let alarms = vec![alarm(0, t, "a"), alarm(2, t, "b"), alarm(1, t, "c"), alarm(5, t, "d")];
    assert_eq!(find_next_id(&alarms), 3);
}

#[test]
fn new_then_list_shows_the_submitted_alarm() {
    let now = ts(2024, 6, 7, 10, 0, 0);
    let store: Vec<Alarm> = Vec::new();
    let req = Request::New(String::from("30m"), String::from("coffee"));
    let h = handle_request(req, store, &now).expect("request");
    assert!(h.reschedule);
    let store = h.new_store.expect("mutated store");
    assert_eq!(store.len(), 1);
    assert_eq!(store[0].id, 0);
    assert_eq!(store[0].label, "coffee");
    assert_eq!(store[0].time, ts(2024, 6, 7, 10, 30, 0));
    match h.response {
        Response::Message(m) => assert_eq!(m, "Alarm set for 30 minutes from now."),
        Response::Alarms(_) => panic!("expected a message"),
    }
    let h2 = handle_request(Request::List, store, &now).expect("list");
    assert!(!h2.reschedule);
    assert!(h2.new_store.is_none());
    match h2.response {
        Response::Alarms(v) => {
            assert_eq!(v.len(), 1);
            assert_eq!(v[0].id, 0);
            assert_eq!(v[0].label, "coffee");
            assert_eq!(v[0].time, ts(2024, 6, 7, 10, 30, 0));
        }
        Response::Message(_) => panic!("expected the alarm list"),
    }
}

#[test]
fn new_picks_smallest_free_id() {
    let now = ts(2024, 6, 7, 10, 0, 0);
    let t = ts(2024, 6, 7, 12, 0, 0);
    let store = vec![alarm(0, t, "a"), alarm(1, t, "b"), alarm(3, t, "c")];
    let req = Request::New(String::from("1h"), String::from("d"));
    let h = handle_request(req, store, &now).expect("request");
    let store = h.new_store.expect("mutated store");
    assert_eq!(store.len(), 4);
    assert_eq!(store[3].id, 2);
}

#[test]
fn new_with_bad_expression_fails_without_mutation() {
    let now = ts(2024, 6, 7, 10, 0, 0);
    let store: Vec<Alarm> = Vec::new();
    let req = Request::New(String::from("yesterday"), String::from("x"));
    assert!(handle_request(req, store, &now).is_err());
}

#[test]
fn del_removes_exactly_the_matching_alarm() {
    let now = ts(2024, 6, 7, 10, 0, 0);
    let t1 = ts(2024, 6, 7, 11, 0, 0);
    let t2 = ts(2024, 6, 7, 12, 0, 0);
    let t3 = ts(2024, 6, 7, 13, 0, 0);
    let store = vec![alarm(0, t1, "a"), alarm(1, t2, "b"), alarm(2, t3, "c")];
    let h = handle_request(Request::Del(1), store, &now).expect("del");
    assert!(h.reschedule);
    let store = h.new_store.expect("mutated store");
    assert_eq!(store.len(), 2);
    assert_eq!(store[0].id, 0);
    assert_eq!(store[0].label, "a");
    assert_eq!(store[0].time, t1);
    assert_eq!(store[1].id, 2);
    assert_eq!(store[1].label, "c");
    assert_eq!(store[1].time, t3);
    match h.response {
        Response::Message(m) => assert_eq!(m, "deleted alarm"),
        Response::Alarms(_) => panic!("expected a message"),
    }
}

#[test]
fn del_of_absent_id_is_a_reported_noop() {
    let now = ts(2024, 6, 7, 10, 0, 0);
    let t = ts(2024, 6, 7, 11, 0, 0);
    let store = vec![alarm(5, t, "only")];
    let h = handle_request(Request::Del(7), store, &now).expect("del");
    let store = h.new_store.expect("store");
    assert_eq!(store.len(), 1);
    assert_eq!(store[0].id, 5);
    assert_eq!(store[0].label, "only");
    assert_eq!(store[0].time, t);
    match h.response {
        Response::Message(m) => assert_eq!(m, "deleted alarm"),
        Response::Alarms(_) => panic!("expected a message"),
    }
}

#[test]
fn del_removes_every_alarm_bearing_the_id() {
    let now = ts(2024, 6, 7, 10, 0, 0);
    let t = ts(2024, 6, 7, 11, 0, 0);
    let store = vec![alarm(1, t, "a"), alarm(2, t, "b"), alarm(1, t, "c")];
    let h = handle_request(Request::Del(1), store, &now).expect("del");
    let store = h.new_store.expect("store");
    assert_eq!(store.len(), 1);
    assert_eq!(store[0].id, 2);
    assert_eq!(store[0].label, "b");
}

#[test]
fn list_on_an_empty_store_is_empty() {
    let now = ts(2024, 6, 7, 10, 0, 0);
    let h = handle_request(Request::List, Vec::new(), &now).expect("list");
    match h.response {
        Response::Alarms(v) => assert!(v.is_empty()),
        Response::Message(_) => panic!("expected the alarm list"),
    }
}

#[test]
fn full_scenario_new_list_del_list() {
    let now = ts(2024, 6, 7, 10, 0, 0);
    let store: Vec<Alarm> = Vec::new();
    let h = handle_request(
        Request::New(String::from("30m"), String::from("coffee")),
        store,
        &now,
    )
    .expect("new");
    let store = h.new_store.expect("store");
    let h = handle_request(Request::List, store, &now).expect("list");
    let listed = match h.response {
        Response::Alarms(v) => v,
        Response::Message(_) => panic!("expected the alarm list"),
    };
    assert_eq!(listed.len(), 1);
    assert_eq!(listed[0].label, "coffee");
    assert_eq!(listed[0].time, ts(2024, 6, 7, 10, 30, 0));
    let id = listed[0].id;
    let h = handle_request(Request::Del(id), listed, &now).expect("del");
    let store = h.new_store.expect("store");
    let h = handle_request(Request::List, store, &now).expect("list");
    match h.response {
        Response::Alarms(v) => assert!(v.is_empty()),
        Response::Message(_) => panic!("expected the alarm list"),
    }
}

#[test]
fn sweep_separates_due_from_pending() {
    let now = ts(2024, 6, 7, 10, 0, 0);
    let past = ts(2024, 6, 7, 9, 0, 0);
    let exactly_now = ts(2024, 6, 7, 10, 0, 0);
    let future = ts(2024, 6, 7, 11, 0, 0);
    let store = vec![alarm(0, past, "a"), alarm(1, future, "b"), alarm(2, exactly_now, "c")];
    let (due, pending) = sweep(store, &now);
    assert_eq!(due.len(), 2);
    assert_eq!(due[0].id, 0);
    assert_eq!(due[1].id, 2);
    assert_eq!(pending.len(), 1);
    assert_eq!(pending[0].id, 1);
    assert_eq!(pending[0].label, "b");
    assert_eq!(pending[0].time, future);
}

#[test]
fn sweeping_twice_changes_nothing_more() {
    let now = ts(2024, 6, 7, 10, 0, 0);
    let past = ts(2024, 6, 7, 9, 59, 59);
    let future = ts(2024, 6, 7, 10, 0, 1);
    let store = vec![alarm(0, past, "a"), alarm(1, future, "b")];
    let (_, pending) = sweep(store, &now);
    let first: Vec<(usize, Timestamp)> = pending.iter().map(|a| (a.id, a.time)).collect();
    let (due2, pending2) = sweep(pending, &now);
    assert!(due2.is_empty());
    let second: Vec<(usize, Timestamp)> = pending2.iter().map(|a| (a.id, a.time)).collect();
    assert_eq!(first, second);
}

#[test]
fn find_next_picks_the_soonest_pending() {
    let now = ts(2024, 6, 7, 10, 0, 0);
    let later = ts(2024, 6, 7, 12, 0, 0);
    let soon = ts(2024, 6, 7, 10, 30, 0);
    let past = ts(2024, 6, 7, 9, 0, 0);
    let store = vec![alarm(0, later, "a"), alarm(1, soon, "b"), alarm(2, past, "c")];
    assert_eq!(find_next(&store, &now), Some(soon));
}

#[test]
fn find_next_with_nothing_pending_is_none() {
    let now = ts(2024, 6, 7, 10, 0, 0);
    let past = ts(2024, 6, 7, 9, 0, 0);
    let store = vec![alarm(0, past, "a")];
    assert_eq!(find_next(&store, &now), None);
    let empty: Vec<Alarm> = Vec::new();
    assert_eq!(find_next(&empty, &now), None);
}

#[test]
fn wait_seconds_counts_down_and_clamps() {
    let now = ts(2024, 6, 7, 10, 0, 0);
    let next = ts(2024, 6, 7, 10, 30, 0);
    assert_eq!(wait_seconds(&next, &now), 1800);
    assert_eq!(wait_seconds(&now, &now), 0);
    assert_eq!(wait_seconds(&now, &next), 0);
}

#[test]
fn remaining_message_shows_hours_and_minutes() {
    let now = ts(2024, 6, 7, 10, 0, 0);
    let next = ts(2024, 6, 7, 12, 5, 0);
    assert_eq!(
        get_remaining_time_msg(&next, &now),
        "Alarm set for 2 hours 5 minutes from now."
    );
}

#[test]
fn remaining_message_omits_empty_parts() {
    let now = ts(2024, 6, 7, 10, 0, 0);
    assert_eq!(
        get_remaining_time_msg(&ts(2024, 6, 7, 13, 0, 0), &now),
        "Alarm set for 3 hours from now."
    );
    assert_eq!(
        get_remaining_time_msg(&ts(2024, 6, 7, 10, 45, 0), &now),
        "Alarm set for 45 minutes from now."
    );
    assert_eq!(get_remaining_time_msg(&now, &now), "Alarm set for from now.");
    assert_eq!(
        get_remaining_time_msg(&ts(2024, 6, 7, 9, 0, 0), &now),
        "Alarm set for from now."
    );
}
