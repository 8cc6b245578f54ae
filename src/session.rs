//! Work sessions and the per-day session state machine that turns time-ordered
//! events into them, including the lookback that lets a shift cross midnight.
use vstd::prelude::*;
use crate::event::{
    Action, Event, GeoPoint, day_of, day_number, distinct_instants, is_time_ordered,
    lemma_order_of_arrival_irrelevant, time_ordered,
};

verus! {

/// The longest shift that an `OUT` may close across midnight, in seconds (16 hours).
pub const MAX_SESSION_SECONDS: i64 = 57600;

/// A reconstructed work interval of one user on one calendar day.
#[derive(Clone, Copy, Debug, PartialEq, Eq, Structural)]
pub struct Session {
    /// Calendar day of the check-in, in days since the Unix epoch.
    pub date: i64,
    /// 1-based, dense per day, in order of creation.
    pub session_number: u64,
    pub checkin_time: i64,
    pub checkout_time: Option<i64>,
    pub checkin_location: Option<GeoPoint>,
    pub checkout_location: Option<GeoPoint>,
    pub duration_minutes: Option<u64>,
    pub is_complete: bool,
}

/// Where the matcher stands while it walks one batch: the day of the last
/// event it saw, and the session that this batch opened on that day, if that
/// session is still open (an index into the session list).
#[derive(Clone, Copy, Debug, PartialEq, Eq, Structural)]
pub struct MatchCursor {
    pub day: Option<i64>,
    pub open: Option<usize>,
}

/// Whole minutes from `from` to `to`, rounded to the nearest minute (halves up).
pub open spec fn rounded_minutes(from: i64, to: i64) -> int {
    (to - from + 30) / 60
}

/// How many sessions of `s` lie on calendar day `date`.
pub open spec fn count_on(s: Seq<Session>, date: int) -> nat
    decreases s.len(),
{
    if s.len() == 0 {
        0
    } else {
        count_on(s.drop_last(), date) + if s.last().date == date { 1nat } else { 0nat }
    }
}

/// The session that an `IN` opens.
pub open spec fn opened(date: int, number: nat, e: Event) -> Session {
    Session {
        date: date as i64,
        session_number: number as u64,
        checkin_time: e.timestamp,
        checkout_time: None,
        checkin_location: e.location,
        checkout_location: None,
        duration_minutes: None,
        is_complete: false,
    }
}

/// `s` closed by the `OUT` event `e`.
pub open spec fn closed(s: Session, e: Event) -> Session {
    Session {
        checkout_time: Some(e.timestamp),
        checkout_location: e.location,
        duration_minutes: Some(rounded_minutes(s.checkin_time, e.timestamp) as u64),
        is_complete: true,
        ..s
    }
}

/// The checkout-only session that an unmatched `OUT` leaves.
pub open spec fn orphan(date: int, number: nat, e: Event) -> Session {
    Session {
        date: date as i64,
        session_number: number as u64,
        checkin_time: e.timestamp,
        checkout_time: Some(e.timestamp),
        checkin_location: None,
        checkout_location: e.location,
        duration_minutes: Some(0),
        is_complete: true,
    }
}

/// `s` is a session of the day before `date` (or, when `same_day`, of `date`
/// itself), still open, checked in before `ts` and less than the longest
/// shift before it.
pub open spec fn is_candidate(s: Session, date: int, ts: i64, same_day: bool) -> bool {
    &&& (s.date == date - 1 || (same_day && s.date == date))
    &&& s.checkout_time.is_none()
    &&& s.checkin_time < ts
    &&& ts - s.checkin_time < MAX_SESSION_SECONDS
}

/// The candidate of `s` with the latest check-in (the first such one on a tie).
pub open spec fn latest_candidate(s: Seq<Session>, date: int, ts: i64, same_day: bool) -> Option<int>
    decreases s.len(),
{
    if s.len() == 0 {
        None
    } else {
        let prev = latest_candidate(s.drop_last(), date, ts, same_day);
        let i = s.len() - 1;
        if is_candidate(s[i], date, ts, same_day) && (prev.is_none() || s[prev.unwrap()].checkin_time
            < s[i].checkin_time) {
            Some(i)
        } else {
            prev
        }
    }
}

/// One transition of the matcher on event `e`.
pub open spec fn step(s: Seq<Session>, c: MatchCursor, e: Event) -> (Seq<Session>, MatchCursor) {
    let d = day_of(e.timestamp);
    let open = if c.day == Some(d as i64) { c.open } else { None };
    match e.action {
        Action::In => match open {
            Some(o) => (s, MatchCursor { day: Some(d as i64), open: Some(o) }),
            None => (
                s.push(opened(d, count_on(s, d) + 1, e)),
                MatchCursor { day: Some(d as i64), open: Some(s.len() as usize) },
            ),
        },
        Action::Out => {
            let idle = MatchCursor { day: Some(d as i64), open: None };
            match open {
                Some(o) => (s.update(o as int, closed(s[o as int], e)), idle),
                None => match latest_candidate(s, d, e.timestamp, false) {
                    Some(j) => (s.update(j, closed(s[j], e)), idle),
                    None => (s.push(orphan(d, count_on(s, d) + 1, e)), idle),
                },
            }
        },
    }
}

/// The matcher's sessions and cursor after walking `evs` from a fresh cursor.
pub open spec fn run(s: Seq<Session>, evs: Seq<Event>) -> (Seq<Session>, MatchCursor)
    decreases evs.len(),
{
    if evs.len() == 0 {
        (s, MatchCursor { day: None, open: None })
    } else {
        let (s1, c1) = run(s, evs.drop_last());
        step(s1, c1, evs.last())
    }
}

/// The sessions after the matcher has walked `evs`.
pub open spec fn matched(s: Seq<Session>, evs: Seq<Event>) -> Seq<Session> {
    run(s, evs).0
}

/// Counts the sessions on calendar day `date`.
pub fn sessions_on(sessions: &Vec<Session>, date: i64) -> (r: u64)
    ensures
        r == count_on(sessions@, date as int),
{
    let r = count_before(sessions, sessions.len(), date);
    proof {
        assert(sessions@.take(sessions@.len() as int) =~= sessions@);
    }
    r
}

/// Counts the sessions on calendar day `date` among the first `end`.
fn count_before(sessions: &Vec<Session>, end: usize, date: i64) -> (r: u64)
    requires
        end <= sessions@.len(),
    ensures
        r == count_on(sessions@.take(end as int), date as int),
        r <= end,
{
    let mut n: u64 = 0;
    let mut i: usize = 0;
    while i < end
        invariant
            i <= end,
            end <= sessions@.len(),
            n == count_on(sessions@.take(i as int), date as int),
            n <= i,
        decreases end - i,
    {
        proof {
            assert(sessions@.take(i as int + 1).drop_last() =~= sessions@.take(i as int));
        }
        if sessions[i].date == date {
            n = n + 1;
        }
        i = i + 1;
    }
    n
}

/// Checks the invariant of a session list, as stored sessions are loaded.
pub fn check_sessions(sessions: &Vec<Session>) -> (r: bool)
    ensures
        r == sessions_valid(sessions@),
{
    let mut i: usize = 0;
    while i < sessions.len()
        invariant
            i <= sessions@.len(),
            forall|k: int| 0 <= k < i ==> #[trigger] entry_valid(sessions@, k),
        decreases sessions@.len() - i,
    {
        let s = sessions[i];
        let c = count_before(sessions, i, s.date);
        let settled = s.is_complete == s.checkout_time.is_some()
            && s.duration_minutes.is_some() == s.checkout_time.is_some() && match (
            s.checkout_time,
            s.duration_minutes,
        ) {
            (Some(out), Some(m)) => s.checkin_time <= out && m == minutes_between(s.checkin_time, out),
            _ => true,
        };
        if s.session_number != c + 1 || !settled {
            proof {
                assert(!entry_valid(sessions@, i as int));
            }
            return false;
        }
        assert(entry_valid(sessions@, i as int));
        i = i + 1;
    }
    assert forall|k: int| 0 <= k < sessions@.len() implies consistent(#[trigger] sessions@[k]) by {
        assert(entry_valid(sessions@, k));
    }
    assert forall|k: int| 0 <= k < sessions@.len() implies #[trigger] sessions@[k].session_number as int
        == count_on(sessions@.take(k), sessions@[k].date as int) + 1 by {
        assert(entry_valid(sessions@, k));
    }
    true
}

/// Session `k` of `s` carries its dense number and a consistent state.
pub open spec fn entry_valid(s: Seq<Session>, k: int) -> bool {
    &&& s[k].session_number as int == count_on(s.take(k), s[k].date as int) + 1
    &&& consistent(s[k])
}

/// Finds the open session that an `OUT` at `ts` on `date` closes: among the
/// candidates, the one with the latest check-in.
pub fn find_crossing_session(sessions: &Vec<Session>, date: i64, ts: i64, same_day: bool) -> (r: Option<usize>)
    ensures
        r.is_some() == latest_candidate(sessions@, date as int, ts, same_day).is_some(),
        r.is_some() ==> r.unwrap() as int == latest_candidate(sessions@, date as int, ts, same_day).unwrap(),
        r.is_some() ==> r.unwrap() < sessions@.len() && is_candidate(
            sessions@[r.unwrap() as int],
            date as int,
            ts, same_day,
        ),
        r.is_some() ==> forall|k: int|
            0 <= k < sessions@.len() && is_candidate(#[trigger] sessions@[k], date as int, ts, same_day)
                ==> sessions@[k].checkin_time <= sessions@[r.unwrap() as int].checkin_time,
        r.is_none() ==> forall|k: int|
            0 <= k < sessions@.len() ==> !is_candidate(#[trigger] sessions@[k], date as int, ts, same_day),
{
    let mut best: Option<usize> = None;
    let mut i: usize = 0;
    while i < sessions.len()
        invariant
            i <= sessions.len(),
            best.is_some() == latest_candidate(sessions@.take(i as int), date as int, ts, same_day).is_some(),
            best.is_some() ==> best.unwrap() as int == latest_candidate(
                sessions@.take(i as int),
                date as int,
                ts, same_day,
            ).unwrap(),
            best.is_some() ==> best.unwrap() < i,
        decreases sessions.len() - i,
    {
        let ghost t = sessions@.take(i as int + 1);
        proof {
            assert(t.drop_last() =~= sessions@.take(i as int));
            assert(t[i as int] == sessions@[i as int]);
            if best.is_some() {
                assert(t[best.unwrap() as int] == sessions@[best.unwrap() as int]);
            }
        }
        let s = sessions[i];
        let qualifies = (s.date as i128 == date as i128 - 1 || (same_day && s.date == date))
            && s.checkout_time.is_none()
            && s.checkin_time < ts && (ts as i128) - (s.checkin_time as i128)
            < MAX_SESSION_SECONDS as i128;
        if qualifies {
            match best {
                None => {
                    best = Some(i);
                },
                Some(b) => {
                    if sessions[b].checkin_time < s.checkin_time {
                        best = Some(i);
                    }
                },
            }
        }
        i = i + 1;
    }
    proof {
        assert(sessions@.take(i as int) =~= sessions@);
        lemma_latest_candidate(sessions@, date as int, ts, same_day);
    }
    best
}

/// What `latest_candidate` picks: a candidate whose check-in no other
/// candidate follows; nothing only when there is no candidate.
pub proof fn lemma_latest_candidate(s: Seq<Session>, date: int, ts: i64, same_day: bool)
    ensures
        latest_candidate(s, date, ts, same_day).is_some() ==> {
            let j = latest_candidate(s, date, ts, same_day).unwrap();
            &&& 0 <= j < s.len()
            &&& is_candidate(s[j], date, ts, same_day)
            &&& forall|k: int|
                0 <= k < s.len() && is_candidate(#[trigger] s[k], date, ts, same_day) ==> s[k].checkin_time
                    <= s[j].checkin_time
        },
        latest_candidate(s, date, ts, same_day).is_none() ==> forall|k: int|
            0 <= k < s.len() ==> !is_candidate(#[trigger] s[k], date, ts, same_day),
    decreases s.len(),
{
    if s.len() > 0 {
        let t = s.drop_last();
        let i = s.len() - 1;
        lemma_latest_candidate(t, date, ts, same_day);
        assert forall|k: int| 0 <= k < t.len() implies #[trigger] t[k] == s[k] by {}
        let prev = latest_candidate(t, date, ts, same_day);
        if is_candidate(s[i], date, ts, same_day) && (prev.is_none() || s[prev.unwrap()].checkin_time
            < s[i].checkin_time) {
            assert(latest_candidate(s, date, ts, same_day) == Some(i));
            assert forall|k: int|
                0 <= k < s.len() && is_candidate(#[trigger] s[k], date, ts, same_day) implies s[k].checkin_time
                    <= s[i].checkin_time by {
                if k < i {
                    assert(t[k] == s[k]);
                }
            }
        } else {
            assert(latest_candidate(s, date, ts, same_day) == prev);
            if prev.is_some() {
                let j = prev.unwrap();
                assert(s[j] == t[j]);
                assert forall|k: int|
                    0 <= k < s.len() && is_candidate(#[trigger] s[k], date, ts, same_day) implies s[k].checkin_time
                        <= s[j].checkin_time by {
                    if k < i {
                        assert(t[k] == s[k]);
                    }
                }
            } else {
                assert forall|k: int| 0 <= k < s.len() implies !is_candidate(#[trigger] s[k], date, ts, same_day) by {
                    if k < i {
                        assert(t[k] == s[k]);
                    }
                }
            }
        }
    }
}

proof fn lemma_count_on_bound(s: Seq<Session>, date: int)
    ensures
        count_on(s, date) <= s.len(),
    decreases s.len(),
{
    if s.len() > 0 {
        lemma_count_on_bound(s.drop_last(), date);
    }
}

/// Applies one event to the session list: the matcher's transition.
fn apply_event(sessions: &mut Vec<Session>, cursor: MatchCursor, e: Event) -> (c: MatchCursor)
    requires
        old(sessions)@.len() < usize::MAX,
        cursor.open.is_some() ==> cursor.open.unwrap() < old(sessions)@.len()
            && old(sessions)@[cursor.open.unwrap() as int].checkin_time <= e.timestamp,
    ensures
        (final(sessions)@, c) == step(old(sessions)@, cursor, e),
        final(sessions)@.len() <= old(sessions)@.len() + 1,
{
    let d = day_number(e.timestamp);
    let open = if cursor.day == Some(d) { cursor.open } else { None };
    match e.action {
        Action::In => {
            match open {
                Some(o) => MatchCursor { day: Some(d), open: Some(o) },
                None => {
                    let n = sessions_on(sessions, d);
                    proof {
                        lemma_count_on_bound(sessions@, d as int);
                    }
                    let len = sessions.len();
                    sessions.push(Session {
                        date: d,
                        session_number: n + 1,
                        checkin_time: e.timestamp,
                        checkout_time: None,
                        checkin_location: e.location,
                        checkout_location: None,
                        duration_minutes: None,
                        is_complete: false,
                    });
                    MatchCursor { day: Some(d), open: Some(len) }
                },
            }
        },
        Action::Out => {
            let idle = MatchCursor { day: Some(d), open: None };
            match open {
                Some(o) => {
                    close_session(sessions, o, e);
                    idle
                },
                None => {
                    match find_crossing_session(sessions, d, e.timestamp, false) {
                        Some(j) => {
                            close_session(sessions, j, e);
                            idle
                        },
                        None => {
                            let n = sessions_on(sessions, d);
                            proof {
                                lemma_count_on_bound(sessions@, d as int);
                            }
                            sessions.push(Session {
                                date: d,
                                session_number: n + 1,
                                checkin_time: e.timestamp,
                                checkout_time: Some(e.timestamp),
                                checkin_location: None,
                                checkout_location: e.location,
                                duration_minutes: Some(0),
                                is_complete: true,
                            });
                            idle
                        },
                    }
                },
            }
        },
    }
}

/// Minutes from `from` to the later instant `to`, rounded to the nearest minute.
pub fn minutes_between(from: i64, to: i64) -> (r: u64)
    requires
        from <= to,
    ensures
        r as int == rounded_minutes(from, to),
{
    let elapsed: u128 = ((to as i128) - (from as i128)) as u128;
    let minutes: u128 = (elapsed + 30) / 60;
    assert(minutes <= u64::MAX) by (nonlinear_arith)
        requires elapsed <= 0x1_0000_0000_0000_0000, minutes == (elapsed + 30) / 60;
    minutes as u64
}

/// Closes session `i` with the `OUT` event `e`.
fn close_session(sessions: &mut Vec<Session>, i: usize, e: Event)
    requires
        i < old(sessions)@.len(),
        old(sessions)@[i as int].checkin_time <= e.timestamp,
    ensures
        final(sessions)@ == old(sessions)@.update(i as int, closed(old(sessions)@[i as int], e)),
{
    let s = sessions[i];
    let minutes = minutes_between(s.checkin_time, e.timestamp);
    let updated = Session {
        checkout_time: Some(e.timestamp),
        checkout_location: e.location,
        duration_minutes: Some(minutes),
        is_complete: true,
        ..s
    };
    sessions.set(i, updated);
}

/// Walks time-ordered events through the matcher, from a fresh cursor.
pub fn match_events(sessions: &mut Vec<Session>, evs: &Vec<Event>)
    requires
        is_time_ordered(evs@),
        old(sessions)@.len() + evs@.len() < usize::MAX,
    ensures
        final(sessions)@ == matched(old(sessions)@, evs@),
{
    let ghost s0 = sessions@;
    let mut cursor = MatchCursor { day: None, open: None };
    let mut i: usize = 0;
    while i < evs.len()
        invariant
            i <= evs.len(),
            is_time_ordered(evs@),
            s0.len() + evs@.len() < usize::MAX,
            sessions@.len() <= s0.len() + i,
            (sessions@, cursor) == run(s0, evs@.take(i as int)),
            cursor.open.is_some() ==> i > 0 && cursor.open.unwrap() < sessions@.len()
                && sessions@[cursor.open.unwrap() as int].checkin_time <= evs@[i - 1].timestamp,
        decreases evs.len() - i,
    {
        let e = evs[i];
        proof {
            assert(evs@.take(i as int + 1).drop_last() =~= evs@.take(i as int));
            assert(evs@.take(i as int + 1).last() == e);
            if cursor.open.is_some() {
                assert(evs@[i - 1].timestamp <= evs@[i as int].timestamp);
            }
        }
        cursor = apply_event(sessions, cursor, e);
        i = i + 1;
    }
    proof {
        assert(evs@.take(i as int) =~= evs@);
    }
}

/// Session numbers are dense per day: each session's number is one more than
/// the number of sessions of its day before it in the list.
pub open spec fn numbered_densely(s: Seq<Session>) -> bool {
    forall|i: int|
        0 <= i < s.len() ==> #[trigger] s[i].session_number as int == count_on(s.take(i), s[i].date as int)
            + 1
}

/// A session is complete exactly when it has a check-out, and it has a
/// duration exactly then: the minutes from check-in to the later check-out.
pub open spec fn consistent(x: Session) -> bool {
    &&& x.is_complete == x.checkout_time.is_some()
    &&& x.duration_minutes.is_some() == x.checkout_time.is_some()
    &&& x.checkout_time.is_some() ==> x.checkin_time <= x.checkout_time.unwrap()
        && x.duration_minutes.unwrap() as int == rounded_minutes(
        x.checkin_time,
        x.checkout_time.unwrap(),
    )
}

/// The invariant of a session list.
pub open spec fn sessions_valid(s: Seq<Session>) -> bool {
    &&& numbered_densely(s)
    &&& forall|i: int| 0 <= i < s.len() ==> consistent(#[trigger] s[i])
}

pub proof fn lemma_count_on_push(s: Seq<Session>, x: Session, date: int)
    ensures
        count_on(s.push(x), date) == count_on(s, date) + if x.date == date { 1nat } else { 0nat },
{
    assert(s.push(x).drop_last() =~= s);
}

proof fn lemma_count_on_update(s: Seq<Session>, j: int, x: Session, date: int)
    requires
        0 <= j < s.len(),
        x.date == s[j].date,
    ensures
        count_on(s.update(j, x), date) == count_on(s, date),
    decreases s.len(),
{
    let u = s.update(j, x);
    if j < s.len() - 1 {
        assert(u.drop_last() =~= s.drop_last().update(j, x));
        lemma_count_on_update(s.drop_last(), j, x, date);
    } else {
        assert(u.drop_last() =~= s.drop_last());
    }
}

proof fn lemma_count_on_prefix(s: Seq<Session>, a: int, b: int, date: int)
    requires
        0 <= a <= b <= s.len(),
    ensures
        count_on(s.take(a), date) <= count_on(s.take(b), date),
    decreases b - a,
{
    if a < b {
        lemma_count_on_prefix(s, a, b - 1, date);
        assert(s.take(b).drop_last() =~= s.take(b - 1));
    }
}

/// Dense numbering makes (day, number) a key: two sessions of one day never
/// share a number, and the later one has the larger number.
pub proof fn lemma_numbers_distinct(s: Seq<Session>, i: int, j: int)
    requires
        numbered_densely(s),
        0 <= i < j < s.len(),
        s[i].date == s[j].date,
    ensures
        s[i].session_number < s[j].session_number,
{
    let d = s[i].date as int;
    lemma_count_on_prefix(s, i + 1, j, d);
    assert(s.take(i + 1).drop_last() =~= s.take(i));
    assert(s.take(i + 1).last() == s[i]);
    assert(s[i].session_number as int == count_on(s.take(i), d) + 1);
    assert(s[j].session_number as int == count_on(s.take(j), d) + 1);
}

proof fn lemma_push_valid(s: Seq<Session>, x: Session)
    requires
        sessions_valid(s),
        consistent(x),
        x.session_number as int == count_on(s, x.date as int) + 1,
    ensures
        sessions_valid(s.push(x)),
{
    let u = s.push(x);
    assert forall|i: int| 0 <= i < u.len() implies #[trigger] u[i].session_number as int == count_on(
        u.take(i),
        u[i].date as int,
    ) + 1 by {
        if i < s.len() {
            assert(u.take(i) =~= s.take(i));
            assert(u[i] == s[i]);
        } else {
            assert(u.take(i) =~= s);
        }
    }
    assert forall|i: int| 0 <= i < u.len() implies consistent(#[trigger] u[i]) by {
        if i < s.len() {
            assert(u[i] == s[i]);
        }
    }
}

proof fn lemma_update_valid(s: Seq<Session>, j: int, x: Session)
    requires
        sessions_valid(s),
        0 <= j < s.len(),
        consistent(x),
        x.date == s[j].date,
        x.session_number == s[j].session_number,
    ensures
        sessions_valid(s.update(j, x)),
{
    let u = s.update(j, x);
    assert forall|i: int| 0 <= i < u.len() implies #[trigger] u[i].session_number as int == count_on(
        u.take(i),
        u[i].date as int,
    ) + 1 by {
        if j < i {
            assert(u.take(i) =~= s.take(i).update(j, x));
            lemma_count_on_update(s.take(i), j, x, u[i].date as int);
        } else {
            assert(u.take(i) =~= s.take(i));
        }
    }
}

proof fn lemma_step_valid(s: Seq<Session>, c: MatchCursor, e: Event)
    requires
        sessions_valid(s),
        s.len() + 1 < usize::MAX,
        c.open.is_some() ==> c.open.unwrap() < s.len() && s[c.open.unwrap() as int].checkin_time
            <= e.timestamp,
    ensures
        sessions_valid(step(s, c, e).0),
        step(s, c, e).1.open.is_some() ==> step(s, c, e).1.open.unwrap() < step(s, c, e).0.len()
            && step(s, c, e).0[step(s, c, e).1.open.unwrap() as int].checkin_time <= e.timestamp,
        step(s, c, e).0.len() <= s.len() + 1,
{
    let d = day_of(e.timestamp);
    lemma_count_on_bound(s, d);
    lemma_latest_candidate(s, d, e.timestamp, false);
    let open = if c.day == Some(d as i64) { c.open } else { None };
    lemma_rounded_fits(e.timestamp);
    match e.action {
        Action::In => {
            if open.is_none() {
                lemma_push_valid(s, opened(d, count_on(s, d) + 1, e));
            }
        },
        Action::Out => {
            match open {
                Some(o) => {
                    lemma_update_valid(s, o as int, closed(s[o as int], e));
                },
                None => match latest_candidate(s, d, e.timestamp, false) {
                    Some(j) => {
                        lemma_update_valid(s, j, closed(s[j], e));
                    },
                    None => {
                        lemma_push_valid(s, orphan(d, count_on(s, d) + 1, e));
                    },
                },
            }
        },
    }
}

proof fn lemma_rounded_fits(ts: i64)
    ensures
        forall|from: i64|
            from <= ts ==> 0 <= #[trigger] rounded_minutes(from, ts) <= u64::MAX,
{
    assert forall|from: i64| from <= ts implies 0 <= #[trigger] rounded_minutes(from, ts) <= u64::MAX by {
        let d = ts - from;
        assert(0 <= (d + 30) / 60 <= u64::MAX) by (nonlinear_arith)
            requires 0 <= d <= 0x1_0000_0000_0000_0000;
    }
}

/// The matcher keeps the session list valid when it walks events in time order.
pub proof fn lemma_run_valid(s: Seq<Session>, evs: Seq<Event>)
    requires
        sessions_valid(s),
        is_time_ordered(evs),
        s.len() + evs.len() < usize::MAX,
    ensures
        sessions_valid(run(s, evs).0),
        run(s, evs).1.open.is_some() ==> run(s, evs).1.open.unwrap() < run(s, evs).0.len()
            && evs.len() > 0 && run(s, evs).0[run(s, evs).1.open.unwrap() as int].checkin_time
            <= evs.last().timestamp,
        run(s, evs).0.len() <= s.len() + evs.len(),
    decreases evs.len(),
{
    if evs.len() > 0 {
        let p = evs.drop_last();
        assert(is_time_ordered(p)) by {
            assert forall|i: int, j: int| 0 <= i < j < p.len() implies #[trigger] p[i].timestamp
                <= #[trigger] p[j].timestamp by {
                assert(p[i] == evs[i] && p[j] == evs[j]);
            }
        }
        if p.len() > 0 {
            assert(p.last() == evs[evs.len() - 2]);
            assert(evs[evs.len() - 2].timestamp <= evs[evs.len() - 1].timestamp);
        }
        lemma_run_valid(s, p);
        let (s1, c1) = run(s, evs.drop_last());
        lemma_step_valid(s1, c1, evs.last());
    }
}

/// The matcher's output does not depend on the order in which a set of
/// events arrived, when no two different events share a timestamp: once put
/// in time order, any two arrival orders give the same sessions.
pub proof fn lemma_matching_ignores_arrival_order(s: Seq<Session>, a: Seq<Event>, b: Seq<Event>)
    requires
        a.to_multiset() =~= b.to_multiset(),
        distinct_instants(a),
    ensures
        matched(s, time_ordered(a)) == matched(s, time_ordered(b)),
{
    lemma_order_of_arrival_irrelevant(a, b);
}

/// Whether some session of `s` on `date` is still open.
pub open spec fn open_on(s: Seq<Session>, date: int) -> bool {
    exists|i: int| 0 <= i < s.len() && #[trigger] s[i].date == date && s[i].checkout_time.is_none()
}

/// The sessions after an administrator records `e` directly. An `IN` opens a
/// session only when its day has none open. An `OUT` closes the open session
/// of its own day or the day before with the latest check-in within the
/// longest shift before it, and otherwise leaves a checkout-only session.
pub open spec fn admin_step(s: Seq<Session>, e: Event) -> Seq<Session> {
    let d = day_of(e.timestamp);
    match e.action {
        Action::In => if open_on(s, d) {
            s
        } else {
            s.push(opened(d, count_on(s, d) + 1, e))
        },
        Action::Out => match latest_candidate(s, d, e.timestamp, true) {
            Some(j) => s.update(j, closed(s[j], e)),
            None => s.push(orphan(d, count_on(s, d) + 1, e)),
        },
    }
}

/// Whether some session on calendar day `date` is still open.
fn has_open_on(sessions: &Vec<Session>, date: i64) -> (r: bool)
    ensures
        r == open_on(sessions@, date as int),
{
    let mut i: usize = 0;
    while i < sessions.len()
        invariant
            i <= sessions@.len(),
            forall|k: int| 0 <= k < i ==> !(#[trigger] sessions@[k].date == date && sessions@[k].checkout_time.is_none()),
        decreases sessions@.len() - i,
    {
        if sessions[i].date == date && sessions[i].checkout_time.is_none() {
            return true;
        }
        i = i + 1;
    }
    false
}

/// Applies an event that an administrator records directly.
pub fn apply_admin_event(sessions: &mut Vec<Session>, e: Event)
    requires
        old(sessions)@.len() + 1 < usize::MAX,
    ensures
        final(sessions)@ == admin_step(old(sessions)@, e),
{
    let d = day_number(e.timestamp);
    match e.action {
        Action::In => {
            if !has_open_on(sessions, d) {
                let n = sessions_on(sessions, d);
                proof {
                    lemma_count_on_bound(sessions@, d as int);
                }
                sessions.push(Session {
                    date: d,
                    session_number: n + 1,
                    checkin_time: e.timestamp,
                    checkout_time: None,
                    checkin_location: e.location,
                    checkout_location: None,
                    duration_minutes: None,
                    is_complete: false,
                });
            }
        },
        Action::Out => {
            match find_crossing_session(sessions, d, e.timestamp, true) {
                Some(j) => {
                    close_session(sessions, j, e);
                },
                None => {
                    let n = sessions_on(sessions, d);
                    proof {
                        lemma_count_on_bound(sessions@, d as int);
                    }
                    sessions.push(Session {
                        date: d,
                        session_number: n + 1,
                        checkin_time: e.timestamp,
                        checkout_time: Some(e.timestamp),
                        checkin_location: None,
                        checkout_location: e.location,
                        duration_minutes: Some(0),
                        is_complete: true,
                    });
                },
            }
        },
    }
}

/// An administrator's event keeps the session list valid.
pub proof fn lemma_admin_step_valid(s: Seq<Session>, e: Event)
    requires
        sessions_valid(s),
        s.len() + 1 < usize::MAX,
    ensures
        sessions_valid(admin_step(s, e)),
{
    let d = day_of(e.timestamp);
    lemma_count_on_bound(s, d);
    lemma_latest_candidate(s, d, e.timestamp, true);
    lemma_rounded_fits(e.timestamp);
    match e.action {
        Action::In => {
            if !open_on(s, d) {
                lemma_push_valid(s, opened(d, count_on(s, d) + 1, e));
            }
        },
        Action::Out => match latest_candidate(s, d, e.timestamp, true) {
            Some(j) => {
                lemma_update_valid(s, j, closed(s[j], e));
            },
            None => {
                lemma_push_valid(s, orphan(d, count_on(s, d) + 1, e));
            },
        },
    }
}

} // verus!
