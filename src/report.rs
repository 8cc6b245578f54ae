//! Reports over the derived summaries: a month's attendance with lateness and
//! early leaving, and the state of per-user configuration rows.
use vstd::prelude::*;
use crate::event::{SECONDS_PER_DAY, day_number};
use crate::ledger::Ledger;
use crate::summary::{Summary, summary_of};
use crate::session::Session;

verus! {

/// Seconds since midnight (UTC) of an instant.
pub open spec fn time_of_day(ts: i64) -> int {
    ts as int % SECONDS_PER_DAY as int
}

/// One day of a month's attendance.
#[derive(Clone, Copy, Debug, PartialEq, Eq, Structural)]
pub struct DailyAttendance {
    pub date: i64,
    pub checkin_time: Option<i64>,
    pub checkout_time: Option<i64>,
    /// The first check-in came after the start of duty.
    pub is_late: bool,
    /// The last check-out came before the end of duty.
    pub is_early_leave: bool,
    pub total_work_minutes: u128,
    pub total_sessions: u64,
}

/// A month's attendance of one user.
pub struct MonthlyStatsResponse {
    pub attendance_days: usize,
    pub late_count: usize,
    pub early_leave_count: usize,
    pub details: Vec<DailyAttendance>,
}

/// The attendance row of a day's summary, against duty hours given in seconds
/// since midnight.
pub open spec fn attendance_of(s: Summary, on_duty: int, off_duty: int) -> DailyAttendance {
    DailyAttendance {
        date: s.date,
        checkin_time: s.first_checkin_time,
        checkout_time: s.last_checkout_time,
        is_late: s.first_checkin_time.is_some() && time_of_day(s.first_checkin_time.unwrap())
            > on_duty,
        is_early_leave: s.last_checkout_time.is_some() && time_of_day(
            s.last_checkout_time.unwrap(),
        ) < off_duty,
        total_work_minutes: s.total_work_minutes,
        total_sessions: s.total_sessions,
    }
}

/// The rows of the days in `[start, end)` that have sessions, in date order.
pub open spec fn attendance_rows(
    sessions: Seq<Session>,
    start: int,
    end: int,
    on_duty: int,
    off_duty: int,
) -> Seq<DailyAttendance>
    decreases end - start,
{
    if end <= start {
        Seq::empty()
    } else {
        let prev = attendance_rows(sessions, start, end - 1, on_duty, off_duty);
        let s = summary_of(sessions, (end - 1) as i64);
        if s.total_sessions > 0 {
            prev.push(attendance_of(s, on_duty, off_duty))
        } else {
            prev
        }
    }
}

/// How many rows have a check-in.
pub open spec fn days_present(rows: Seq<DailyAttendance>) -> nat
    decreases rows.len(),
{
    if rows.len() == 0 {
        0
    } else {
        days_present(rows.drop_last()) + if rows.last().checkin_time.is_some() { 1nat } else { 0nat }
    }
}

/// How many rows are late.
pub open spec fn days_late(rows: Seq<DailyAttendance>) -> nat
    decreases rows.len(),
{
    if rows.len() == 0 {
        0
    } else {
        days_late(rows.drop_last()) + if rows.last().is_late { 1nat } else { 0nat }
    }
}

/// How many rows leave early.
pub open spec fn days_left_early(rows: Seq<DailyAttendance>) -> nat
    decreases rows.len(),
{
    if rows.len() == 0 {
        0
    } else {
        days_left_early(rows.drop_last()) + if rows.last().is_early_leave { 1nat } else { 0nat }
    }
}

/// Seconds since midnight of an instant.
fn seconds_of_day(ts: i64) -> (r: i64)
    ensures
        r as int == time_of_day(ts),
{
    let d = day_number(ts);
    let base: i128 = d as i128 * SECONDS_PER_DAY as i128;
    let r = (ts as i128 - base) as i64;
    assert(r as int == time_of_day(ts)) by (nonlinear_arith)
        requires d as int == ts as int / 86400, base == d as int * 86400, r as int == ts as int - base;
    r
}

impl DailyAttendance {
    /// The attendance row of a day's summary, against duty hours given in
    /// seconds since midnight.
    pub fn from_summary(s: &Summary, on_duty: i64, off_duty: i64) -> (r: DailyAttendance)
        ensures
            r == attendance_of(*s, on_duty as int, off_duty as int),
    {
        let is_late = match s.first_checkin_time {
            Some(t) => seconds_of_day(t) > on_duty,
            None => false,
        };
        let is_early_leave = match s.last_checkout_time {
            Some(t) => seconds_of_day(t) < off_duty,
            None => false,
        };
        DailyAttendance {
            date: s.date,
            checkin_time: s.first_checkin_time,
            checkout_time: s.last_checkout_time,
            is_late,
            is_early_leave,
            total_work_minutes: s.total_work_minutes,
            total_sessions: s.total_sessions,
        }
    }
}

impl MonthlyStatsResponse {
    /// Counts the attendance, late and early-leave days of a month's rows.
    pub fn from_records(details: Vec<DailyAttendance>) -> (r: MonthlyStatsResponse)
        ensures
            r.details@ == details@,
            r.attendance_days == days_present(details@),
            r.late_count == days_late(details@),
            r.early_leave_count == days_left_early(details@),
    {
        let mut present: usize = 0;
        let mut late: usize = 0;
        let mut early: usize = 0;
        let mut i: usize = 0;
        while i < details.len()
            invariant
                i <= details@.len(),
                present == days_present(details@.take(i as int)),
                late == days_late(details@.take(i as int)),
                early == days_left_early(details@.take(i as int)),
                present <= i,
                late <= i,
                early <= i,
            decreases details@.len() - i,
        {
            proof {
                let t = details@.take(i as int + 1);
                assert(t.drop_last() =~= details@.take(i as int));
                assert(t.last() == details@[i as int]);
            }
            if details[i].checkin_time.is_some() {
                present = present + 1;
            }
            if details[i].is_late {
                late = late + 1;
            }
            if details[i].is_early_leave {
                early = early + 1;
            }
            i = i + 1;
        }
        proof {
            assert(details@.take(i as int) =~= details@);
        }
        MonthlyStatsResponse { attendance_days: present, late_count: late, early_leave_count: early, details }
    }
}

impl Ledger {
    /// The attendance of the days in `[start, end)` that have sessions, with
    /// lateness against `on_duty` and early leaving against `off_duty`
    /// (seconds since midnight).
    pub fn monthly_stats(&self, start: i64, end: i64, on_duty: i64, off_duty: i64) -> (r: MonthlyStatsResponse)
        ensures
            r.details@ == attendance_rows(
                self@.sessions,
                start as int,
                end as int,
                on_duty as int,
                off_duty as int,
            ),
            r.attendance_days == days_present(r.details@),
            r.late_count == days_late(r.details@),
            r.early_leave_count == days_left_early(r.details@),
    {
        let mut rows: Vec<DailyAttendance> = Vec::new();
        if start < end {
            let mut d: i64 = start;
            while d < end
                invariant
                    start <= d <= end,
                    rows@ == attendance_rows(
                        self@.sessions,
                        start as int,
                        d as int,
                        on_duty as int,
                        off_duty as int,
                    ),
                decreases end - d,
            {
                let s = self.summary(d);
                if s.total_sessions > 0 {
                    rows.push(DailyAttendance::from_summary(&s, on_duty, off_duty));
                }
                d = d + 1;
            }
        }
        MonthlyStatsResponse::from_records(rows)
    }
}

/// How far the per-user configuration rows lag behind the users.
#[derive(Clone, Copy, Debug, PartialEq, Eq, Structural)]
pub struct SyncStatus {
    pub total_users: i64,
    pub users_with_time_settings: i64,
    pub is_synced: bool,
    pub missing_count: i64,
}

impl SyncStatus {
    /// The status for the two row counts.
    pub fn from_counts(total_users: i64, users_with_time_settings: i64) -> (r: SyncStatus)
        requires
            total_users - users_with_time_settings <= i64::MAX,
            total_users - users_with_time_settings >= i64::MIN,
        ensures
            r.total_users == total_users,
            r.users_with_time_settings == users_with_time_settings,
            r.missing_count == total_users - users_with_time_settings,
            r.is_synced == (total_users == users_with_time_settings),
    {
        let missing_count = total_users - users_with_time_settings;
        SyncStatus { total_users, users_with_time_settings, is_synced: missing_count == 0, missing_count }
    }
}

} // verus!
