use attendance::event::{Action, Event};
use attendance::ledger::Ledger;
use attendance::report::{DailyAttendance, MonthlyStatsResponse, SyncStatus};
use attendance::session::{check_sessions, Session};
use attendance::summary::Summary;

const DAY: i64 = 86400;
const D: i64 = 20061 * DAY;

fn ev(action: Action, ts: i64) -> Event {
    Event { action, timestamp: ts, location: None }
}

fn at(day: i64, h: i64, m: i64) -> i64 {
    day + h * 3600 + m * 60
}

#[test]
fn monthly_stats_marks_late_and_early_days() {
    let mut l = Ledger::new();
    l.sync_events(&vec![
        ev(Action::In, at(D, 8, 55)),
        ev(Action::Out, at(D, 18, 5)),
        ev(Action::In, at(D + DAY, 9, 30)),
        ev(Action::Out, at(D + DAY, 17, 0)),
        ev(Action::In, at(D + 3 * DAY, 9, 0)),
    ]);
    let m = l.monthly_stats(20061, 20061 + 30, 9 * 3600, 18 * 3600);
    assert_eq!(m.details.len(), 3);
    assert_eq!(m.attendance_days, 3);
    assert_eq!(m.late_count, 1);
    assert_eq!(m.early_leave_count, 1);
    assert_eq!(m.details[0].date, 20061);
    assert!(!m.details[0].is_late && !m.details[0].is_early_leave);
    assert!(m.details[1].is_late && m.details[1].is_early_leave);
    assert_eq!(m.details[1].total_work_minutes, 450);
    assert_eq!(m.details[2].date, 20064);
    assert_eq!(m.details[2].checkout_time, None);
    assert!(!m.details[2].is_early_leave);
    let none = l.monthly_stats(20061 + 30, 20061, 0, 0);
    assert!(none.details.is_empty());
}

#[test]
fn attendance_row_uses_utc_time_of_day() {
    let s = Summary {
        date: -1,
        first_checkin_time: Some(-DAY + 10 * 3600),
        last_checkout_time: Some(-1),
        total_work_minutes: 5,
        total_sessions: 1,
        is_complete: true,
    };
    let r = DailyAttendance::from_summary(&s, 9 * 3600, 18 * 3600);
    assert!(r.is_late);
    assert!(!r.is_early_leave);
    let r2 = DailyAttendance::from_summary(&s, 11 * 3600, 24 * 3600);
    assert!(!r2.is_late);
    assert!(r2.is_early_leave);
}

#[test]
fn monthly_counts_from_rows() {
    let row = |late: bool, early: bool, present: bool| DailyAttendance {
        date: 1,
        checkin_time: if present { Some(5) } else { None },
        checkout_time: None,
        is_late: late,
        is_early_leave: early,
        total_work_minutes: 0,
        total_sessions: 0,
    };
    let m = MonthlyStatsResponse::from_records(vec![row(true, false, true), row(true, true, false), row(false, true, true)]);
    assert_eq!(m.attendance_days, 2);
    assert_eq!(m.late_count, 2);
    assert_eq!(m.early_leave_count, 2);
    assert_eq!(m.details.len(), 3);
}

#[test]
fn sync_status_counts() {
    let s = SyncStatus::from_counts(10, 7);
    assert_eq!(s.missing_count, 3);
    assert!(!s.is_synced);
    assert!(SyncStatus::from_counts(4, 4).is_synced);
}

#[test]
fn restore_checks_stored_sessions() {
    let mut l = Ledger::new();
    l.sync_events(&vec![ev(Action::In, at(D, 8, 0)), ev(Action::Out, at(D, 9, 0)), ev(Action::In, at(D, 10, 0))]);
    let events = l.events().clone();
    let sessions = l.sessions().clone();
    assert!(check_sessions(&sessions));
    let mut back = Ledger::restore(events.clone(), sessions.clone()).unwrap();
    assert_eq!(back.sync_events(&vec![ev(Action::Out, at(D + DAY, 1, 0))]), 1);
    assert_eq!(back.sessions()[1].checkout_time, Some(at(D + DAY, 1, 0)));
    assert_eq!(back.sessions()[1].duration_minutes, Some(900));

    let mut gap: Vec<Session> = sessions.clone();
    gap[1].session_number = 3;
    assert!(Ledger::restore(events.clone(), gap).is_none());
    let mut wrong_minutes: Vec<Session> = sessions.clone();
    wrong_minutes[0].duration_minutes = Some(61);
    assert!(Ledger::restore(events.clone(), wrong_minutes).is_none());
    let mut backwards: Vec<Session> = sessions.clone();
    backwards[0].checkout_time = Some(at(D, 7, 0));
    assert!(Ledger::restore(events.clone(), backwards).is_none());
    let mut open_with_duration: Vec<Session> = sessions.clone();
    open_with_duration[1].duration_minutes = Some(4);
    assert!(Ledger::restore(events, open_with_duration).is_none());
}
