use attendance::event::{day_number, normalize, parse_action, Action, Event, GeoPoint};
use attendance::ledger::{changed_days, changed_sessions, check_count, decide_sync, Ledger, SubmittedEvent, SyncAction, SyncError};
use attendance::session::Session;

const DAY: i64 = 86400;
// 2024-12-04 00:00:00 UTC
const D: i64 = 20061 * DAY;

fn ev(action: Action, ts: i64) -> Event {
    Event { action, timestamp: ts, location: None }
}

fn at(day: i64, h: i64, m: i64) -> i64 {
    day + h * 3600 + m * 60
}

fn submitted(action: &str, ts: i64) -> SubmittedEvent {
    SubmittedEvent { action: action.to_string(), timestamp: ts, location: None }
}

#[test]
fn midnight_crossing_closes_previous_day_session() {
    let mut l = Ledger::new();
    let t_in = at(D, 23, 40);
    let t_out = at(D + DAY, 0, 10);
    let n = l.sync_events(&vec![ev(Action::In, t_in), ev(Action::Out, t_out)]);
    assert_eq!(n, 2);
    let s = l.sessions();
    assert_eq!(s.len(), 1);
    assert_eq!(s[0].date, 20061);
    assert_eq!(s[0].session_number, 1);
    assert_eq!(s[0].checkin_time, t_in);
    assert_eq!(s[0].checkout_time, Some(t_out));
    assert_eq!(s[0].duration_minutes, Some(30));
    assert!(s[0].is_complete);
    assert!(l.daily_sessions(20062).sessions.is_empty());
}

#[test]
fn midnight_crossing_across_two_batches() {
    let mut l = Ledger::new();
    l.sync_events(&vec![ev(Action::In, at(D, 23, 40))]);
    l.sync_events(&vec![ev(Action::Out, at(D + DAY, 0, 10))]);
    assert_eq!(l.sessions().len(), 1);
    assert_eq!(l.sessions()[0].duration_minutes, Some(30));
    assert_eq!(l.summary(20062).total_sessions, 0);
    assert_eq!(l.summary(20061).total_work_minutes, 30);
}

#[test]
fn crossing_window_is_sixteen_hours() {
    let mut l = Ledger::new();
    l.sync_events(&vec![ev(Action::In, at(D, 8, 0))]);
    // exactly 16 hours later: not a candidate, becomes an orphan
    l.sync_events(&vec![ev(Action::Out, at(D + DAY, 0, 0))]);
    let s = l.sessions();
    assert_eq!(s.len(), 2);
    assert_eq!(s[0].checkout_time, None);
    assert_eq!(s[1].date, 20062);
    assert_eq!(s[1].checkin_time, s[1].checkout_time.unwrap());
}

#[test]
fn latest_previous_day_candidate_is_closed() {
    let mut l = Ledger::new();
    l.sync_events(&vec![ev(Action::In, at(D, 20, 0))]);
    l.sync_events(&vec![ev(Action::In, at(D, 22, 0))]);
    l.sync_events(&vec![ev(Action::Out, at(D + DAY, 1, 0))]);
    let s = l.sessions();
    assert_eq!(s.len(), 2);
    assert_eq!(s[0].checkout_time, None);
    assert_eq!(s[1].checkout_time, Some(at(D + DAY, 1, 0)));
    assert_eq!(s[1].duration_minutes, Some(180));
}

#[test]
fn orphan_checkout_creates_single_zero_session() {
    let mut l = Ledger::new();
    let g = GeoPoint { latitude_e7: 399042000, longitude_e7: 1164074000 };
    let t = at(D, 17, 5);
    l.sync_events(&vec![Event { action: Action::Out, timestamp: t, location: Some(g) }]);
    let s = l.sessions();
    assert_eq!(s.len(), 1);
    assert_eq!(s[0].checkin_time, t);
    assert_eq!(s[0].checkout_time, Some(t));
    assert_eq!(s[0].duration_minutes, Some(0));
    assert_eq!(s[0].checkin_location, None);
    assert_eq!(s[0].checkout_location, Some(g));
    assert!(s[0].is_complete);
}

#[test]
fn resubmitting_a_batch_is_idempotent() {
    let batch = vec![
        ev(Action::In, at(D, 9, 0)),
        ev(Action::Out, at(D, 12, 0)),
        ev(Action::In, at(D, 13, 0)),
    ];
    let mut once = Ledger::new();
    once.sync_events(&batch);
    let mut thrice = Ledger::new();
    thrice.sync_events(&batch);
    assert_eq!(thrice.sync_events(&batch), 0);
    assert_eq!(thrice.sync_events(&batch), 0);
    assert_eq!(once.sessions(), thrice.sessions());
    assert_eq!(once.events(), thrice.events());
    assert_eq!(once.summary(20061), thrice.summary(20061));
    assert_eq!(thrice.server_count(), 3);
}

#[test]
fn duplicates_inside_a_batch_are_recorded_once() {
    let mut l = Ledger::new();
    let e = ev(Action::Out, at(D, 18, 0));
    assert_eq!(l.sync_events(&vec![e, e]), 1);
    assert_eq!(l.sessions().len(), 1);
}

#[test]
fn arrival_order_does_not_change_sessions() {
    let a = vec![
        ev(Action::Out, at(D, 12, 0)),
        ev(Action::In, at(D, 9, 0)),
        ev(Action::In, at(D, 13, 0)),
        ev(Action::Out, at(D, 17, 30)),
    ];
    let b = vec![a[3], a[2], a[1], a[0]];
    let mut la = Ledger::new();
    la.sync_events(&a);
    let mut lb = Ledger::new();
    lb.sync_events(&b);
    assert_eq!(la.sessions(), lb.sessions());
    assert_eq!(la.summary(20061), lb.summary(20061));
    assert_eq!(la.sessions().len(), 2);
    assert_eq!(la.sessions()[0].duration_minutes, Some(180));
    assert_eq!(la.sessions()[1].duration_minutes, Some(270));
}

#[test]
fn summary_aggregates_the_day() {
    let mut l = Ledger::new();
    l.sync_events(&vec![
        ev(Action::In, at(D, 8, 0)),
        ev(Action::Out, at(D, 12, 0)),
        ev(Action::In, at(D, 13, 0)),
        ev(Action::Out, at(D, 17, 15)),
        ev(Action::In, at(D, 18, 0)),
    ]);
    let sum = l.summary(20061);
    assert_eq!(sum.date, 20061);
    assert_eq!(sum.total_sessions, 3);
    assert_eq!(sum.total_work_minutes, 240 + 255);
    assert_eq!(sum.first_checkin_time, Some(at(D, 8, 0)));
    assert_eq!(sum.last_checkout_time, Some(at(D, 17, 15)));
    assert!(!sum.is_complete);
    let day = l.daily_sessions(20061);
    assert_eq!(day.sessions.len(), 3);
    let numbers: Vec<u64> = day.sessions.iter().map(|s: &Session| s.session_number).collect();
    assert_eq!(numbers, vec![1, 2, 3]);
    assert_eq!(day.summary, sum);
}

#[test]
fn summary_of_empty_day_is_zeroed() {
    let l = Ledger::new();
    let sum = l.summary(20061);
    assert_eq!(sum.total_sessions, 0);
    assert_eq!(sum.total_work_minutes, 0);
    assert_eq!(sum.first_checkin_time, None);
    assert_eq!(sum.last_checkout_time, None);
    assert!(!sum.is_complete);
}

#[test]
fn complete_day_summary() {
    let mut l = Ledger::new();
    l.sync_events(&vec![ev(Action::In, at(D, 8, 0)), ev(Action::Out, at(D, 8, 45))]);
    let sum = l.summary(20061);
    assert!(sum.is_complete);
    assert_eq!(sum.total_work_minutes, 45);
}

#[test]
fn each_batch_starts_without_an_open_session() {
    let mut l = Ledger::new();
    l.sync_events(&vec![ev(Action::In, at(D, 8, 0))]);
    l.sync_events(&vec![ev(Action::Out, at(D, 9, 0))]);
    let s = l.sessions();
    assert_eq!(s.len(), 2);
    assert_eq!(s[0].checkout_time, None);
    assert_eq!(s[1].session_number, 2);
    assert_eq!(s[1].checkin_time, at(D, 9, 0));
    assert_eq!(s[1].duration_minutes, Some(0));
}

#[test]
fn extra_in_while_open_is_ignored() {
    let mut l = Ledger::new();
    l.sync_events(&vec![
        ev(Action::In, at(D, 8, 0)),
        ev(Action::In, at(D, 9, 0)),
        ev(Action::Out, at(D, 10, 0)),
    ]);
    assert_eq!(l.sessions().len(), 1);
    assert_eq!(l.sessions()[0].checkin_time, at(D, 8, 0));
    assert_eq!(l.sessions()[0].duration_minutes, Some(120));
}

#[test]
fn durations_round_to_nearest_minute() {
    let mut l = Ledger::new();
    l.sync_events(&vec![ev(Action::In, D + 100), ev(Action::Out, D + 189)]);
    l.sync_events(&vec![ev(Action::In, D + 1000), ev(Action::Out, D + 1090)]);
    assert_eq!(l.sessions()[0].duration_minutes, Some(1));
    assert_eq!(l.sessions()[1].duration_minutes, Some(2));
}

#[test]
fn count_check_decision_table() {
    assert_eq!(decide_sync(7, 7), SyncAction::UpToDate);
    assert_eq!(decide_sync(5, 2), SyncAction::Incremental);
    assert_eq!(decide_sync(2, 5), SyncAction::Full);
    assert_eq!(check_count(3, 3).action, "none");
    let r = check_count(5, 2);
    assert_eq!(r.action, "incremental");
    assert_eq!(r.server_count, 2);
    assert_eq!(check_count(2, 5).action, "full");
}

#[test]
fn ledger_count_check_uses_log_size() {
    let mut l = Ledger::new();
    l.sync_events(&vec![ev(Action::In, at(D, 8, 0)), ev(Action::Out, at(D, 9, 0))]);
    let r = l.check_count(2);
    assert_eq!(r.action, "none");
    assert_eq!(r.server_count, 2);
    assert_eq!(l.check_count(5).action, "incremental");
    assert_eq!(l.check_count(0).action, "full");
}

#[test]
fn two_checkins_same_day_get_consecutive_numbers() {
    let mut l = Ledger::new();
    l.sync_events(&vec![ev(Action::In, at(D, 8, 0))]);
    l.sync_events(&vec![ev(Action::In, at(D, 8, 1))]);
    let s = l.sessions();
    assert_eq!(s.len(), 2);
    assert_eq!(s[0].session_number, 1);
    assert_eq!(s[1].session_number, 2);
    assert_eq!(l.server_count(), 2);
}

#[test]
fn invalid_action_rejects_the_whole_batch() {
    let mut l = Ledger::new();
    let batch = vec![submitted("IN", at(D, 8, 0)), submitted("out", at(D, 9, 0)), submitted("X", 0)];
    assert_eq!(l.sync_checkins(&batch), Err(SyncError::InvalidAction { index: 1 }));
    assert_eq!(l.server_count(), 0);
    assert!(l.sessions().is_empty());
    let ok = vec![submitted("IN", at(D, 8, 0)), submitted("OUT", at(D, 9, 0))];
    assert_eq!(l.sync_checkins(&ok), Ok(2));
    assert_eq!(l.sessions()[0].duration_minutes, Some(60));
}

#[test]
fn full_sync_returns_history_in_time_order() {
    let mut l = Ledger::new();
    let a = ev(Action::Out, at(D, 12, 0));
    let b = ev(Action::In, at(D, 9, 0));
    let c = ev(Action::In, at(D - DAY, 9, 0));
    l.sync_events(&vec![a, b]);
    l.sync_events(&vec![c]);
    assert_eq!(l.full_sync(), vec![c, b, a]);
}

#[test]
fn normalize_is_stable_on_equal_instants() {
    let x = ev(Action::Out, 500);
    let y = ev(Action::In, 500);
    let z = ev(Action::In, 100);
    assert_eq!(normalize(&vec![x, y, z]), vec![z, x, y]);
    assert_eq!(normalize(&vec![y, x, z]), vec![z, y, x]);
    assert!(normalize(&vec![]).is_empty());
}

#[test]
fn day_numbers_round_toward_the_past() {
    assert_eq!(day_number(0), 0);
    assert_eq!(day_number(86399), 0);
    assert_eq!(day_number(86400), 1);
    assert_eq!(day_number(-1), -1);
    assert_eq!(day_number(-86400), -1);
    assert_eq!(day_number(-86401), -2);
    assert_eq!(day_number(1733312720), 20061);
    assert_eq!(day_number(i64::MIN), i64::MIN.div_euclid(86400));
    assert_eq!(day_number(i64::MAX), i64::MAX / 86400);
}

#[test]
fn action_words() {
    assert_eq!(parse_action("IN"), Some(Action::In));
    assert_eq!(parse_action("OUT"), Some(Action::Out));
    assert_eq!(parse_action("in"), None);
    assert_eq!(parse_action("OUTS"), None);
    assert_eq!(parse_action(""), None);
}

#[test]
fn admin_in_on_day_with_open_session_is_ignored() {
    let mut l = Ledger::new();
    l.sync_events(&vec![ev(Action::In, at(D, 8, 0))]);
    l.record_admin_event(ev(Action::In, at(D, 9, 0)));
    assert_eq!(l.sessions().len(), 1);
    assert_eq!(l.server_count(), 2);
    l.record_admin_event(ev(Action::In, at(D + DAY, 9, 0)));
    assert_eq!(l.sessions().len(), 2);
    assert_eq!(l.sessions()[1].date, 20062);
    assert_eq!(l.sessions()[1].session_number, 1);
}

#[test]
fn admin_out_closes_open_session_of_same_day() {
    let mut l = Ledger::new();
    l.sync_events(&vec![ev(Action::In, at(D, 8, 0))]);
    l.sync_events(&vec![ev(Action::In, at(D, 8, 30))]);
    l.record_admin_event(ev(Action::Out, at(D, 12, 0)));
    let s = l.sessions();
    assert_eq!(s.len(), 2);
    assert_eq!(s[0].checkout_time, None);
    assert_eq!(s[1].checkout_time, Some(at(D, 12, 0)));
    assert_eq!(s[1].duration_minutes, Some(210));
}

#[test]
fn admin_out_crosses_midnight_and_falls_back_to_orphan() {
    let mut l = Ledger::new();
    l.sync_events(&vec![ev(Action::In, at(D, 22, 0))]);
    l.record_admin_event(ev(Action::Out, at(D + DAY, 2, 0)));
    assert_eq!(l.sessions().len(), 1);
    assert_eq!(l.sessions()[0].duration_minutes, Some(240));
    l.record_admin_event(ev(Action::Out, at(D + DAY, 3, 0)));
    let s = l.sessions();
    assert_eq!(s.len(), 2);
    assert_eq!(s[1].date, 20062);
    assert_eq!(s[1].checkin_time, at(D + DAY, 3, 0));
    assert_eq!(s[1].duration_minutes, Some(0));
}

#[test]
fn changed_sessions_and_days() {
    let mut l = Ledger::new();
    l.sync_events(&vec![ev(Action::In, at(D - DAY, 8, 0)), ev(Action::In, at(D, 22, 0))]);
    let before = l.sessions().clone();
    l.sync_events(&vec![ev(Action::Out, at(D + DAY, 1, 0)), ev(Action::In, at(D + DAY, 8, 0))]);
    assert_eq!(changed_sessions(&before, l.sessions()), vec![1, 2]);
    assert_eq!(changed_days(&before, l.sessions()), vec![20061, 20062]);
    assert!(changed_days(l.sessions(), l.sessions()).is_empty());
}
