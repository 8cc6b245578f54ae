//! The per-day summary: a pure aggregate over the sessions of one day.
use vstd::prelude::*;
use crate::session::{Session, consistent, count_on, sessions_valid};

verus! {

/// Aggregate of one user's sessions on one calendar day.
#[derive(Clone, Copy, Debug, PartialEq, Eq, Structural)]
pub struct Summary {
    pub date: i64,
    pub first_checkin_time: Option<i64>,
    pub last_checkout_time: Option<i64>,
    pub total_work_minutes: u128,
    pub total_sessions: u64,
    pub is_complete: bool,
}

/// Sum of the recorded durations of the sessions of `s` on `date`.
pub open spec fn total_minutes(s: Seq<Session>, date: int) -> nat
    decreases s.len(),
{
    if s.len() == 0 {
        0
    } else {
        let last = s.last();
        total_minutes(s.drop_last(), date) + if last.date == date && last.duration_minutes.is_some() {
            last.duration_minutes.unwrap() as nat
        } else {
            0nat
        }
    }
}

/// Every session of `s` on `date` is complete.
pub open spec fn all_complete(s: Seq<Session>, date: int) -> bool {
    forall|i: int| 0 <= i < s.len() && #[trigger] s[i].date == date ==> s[i].is_complete
}

/// The earliest check-in among the sessions of `s` on `date`.
pub open spec fn earliest_checkin(s: Seq<Session>, date: int) -> Option<i64>
    decreases s.len(),
{
    if s.len() == 0 {
        None
    } else {
        let prev = earliest_checkin(s.drop_last(), date);
        let last = s.last();
        if last.date != date {
            prev
        } else if prev.is_some() && prev.unwrap() <= last.checkin_time {
            prev
        } else {
            Some(last.checkin_time)
        }
    }
}

/// The latest check-out among the sessions of `s` on `date`.
pub open spec fn latest_checkout(s: Seq<Session>, date: int) -> Option<i64>
    decreases s.len(),
{
    if s.len() == 0 {
        None
    } else {
        let prev = latest_checkout(s.drop_last(), date);
        let last = s.last();
        if last.date != date || last.checkout_time.is_none() {
            prev
        } else if prev.is_some() && prev.unwrap() >= last.checkout_time.unwrap() {
            prev
        } else {
            last.checkout_time
        }
    }
}

/// Sum of the durations of the complete sessions of `s` on `date`.
pub open spec fn complete_minutes(s: Seq<Session>, date: int) -> nat
    decreases s.len(),
{
    if s.len() == 0 {
        0
    } else {
        let last = s.last();
        complete_minutes(s.drop_last(), date) + if last.date == date && last.is_complete {
            match last.duration_minutes {
                Some(m) => m as nat,
                None => 0nat,
            }
        } else {
            0nat
        }
    }
}

/// In a valid session list a day's recorded minutes are exactly the
/// durations of its complete sessions.
pub proof fn lemma_total_is_complete_minutes(s: Seq<Session>, date: int)
    requires
        sessions_valid(s),
    ensures
        total_minutes(s, date) == complete_minutes(s, date),
    decreases s.len(),
{
    if s.len() > 0 {
        let t = s.drop_last();
        assert(sessions_valid(t)) by {
            assert forall|i: int| 0 <= i < t.len() implies #[trigger] t[i].session_number as int
                == count_on(t.take(i), t[i].date as int) + 1 by {
                assert(t[i] == s[i]);
                assert(t.take(i) =~= s.take(i));
            }
            assert forall|i: int| 0 <= i < t.len() implies consistent(#[trigger] t[i]) by {
                assert(t[i] == s[i]);
            }
        }
        lemma_total_is_complete_minutes(t, date);
        assert(consistent(s[s.len() - 1]));
    }
}

/// The summary of day `date` over the session list `s`. A day without
/// sessions is zeroed and incomplete.
pub open spec fn summary_of(s: Seq<Session>, date: i64) -> Summary {
    Summary {
        date,
        first_checkin_time: earliest_checkin(s, date as int),
        last_checkout_time: latest_checkout(s, date as int),
        total_work_minutes: total_minutes(s, date as int) as u128,
        total_sessions: count_on(s, date as int) as u64,
        is_complete: count_on(s, date as int) > 0 && all_complete(s, date as int),
    }
}

/// Recomputes the summary of day `date` from the sessions.
pub fn summarize(sessions: &Vec<Session>, date: i64) -> (r: Summary)
    ensures
        r == summary_of(sessions@, date),
        r.total_work_minutes == total_minutes(sessions@, date as int),
        r.total_sessions == count_on(sessions@, date as int),
{
    let mut first: Option<i64> = None;
    let mut last: Option<i64> = None;
    let mut total: u128 = 0;
    let mut count: u64 = 0;
    let mut complete = true;
    let mut i: usize = 0;
    while i < sessions.len()
        invariant
            i <= sessions.len(),
            first == earliest_checkin(sessions@.take(i as int), date as int),
            last == latest_checkout(sessions@.take(i as int), date as int),
            total == total_minutes(sessions@.take(i as int), date as int),
            total <= i as int * 0xFFFF_FFFF_FFFF_FFFF,
            count == count_on(sessions@.take(i as int), date as int),
            count <= i,
            complete == all_complete(sessions@.take(i as int), date as int),
        decreases sessions.len() - i,
    {
        let ghost t = sessions@.take(i as int + 1);
        proof {
            assert(t.drop_last() =~= sessions@.take(i as int));
            assert(t.last() == sessions@[i as int]);
        }
        let s = sessions[i];
        if s.date == date {
            count = count + 1;
            match first {
                Some(f) if f <= s.checkin_time => {},
                _ => {
                    first = Some(s.checkin_time);
                },
            }
            match s.checkout_time {
                Some(out) => match last {
                    Some(l) if l >= out => {},
                    _ => {
                        last = Some(out);
                    },
                },
                None => {},
            }
            match s.duration_minutes {
                Some(m) => {
                    assert(total + m <= (i as int + 1) * 0xFFFF_FFFF_FFFF_FFFF) by (nonlinear_arith)
                        requires total <= i as int * 0xFFFF_FFFF_FFFF_FFFF, m <= 0xFFFF_FFFF_FFFF_FFFFu64;
                    assert((i as int + 1) * 0xFFFF_FFFF_FFFF_FFFF <= 0xFFFF_FFFF_FFFF_FFFF_FFFF_FFFF_FFFF_FFFF) by (nonlinear_arith)
                        requires i < 0x1_0000_0000_0000_0000;
                    total = total + m as u128;
                },
                None => {
                    assert(total <= (i as int + 1) * 0xFFFF_FFFF_FFFF_FFFF) by (nonlinear_arith)
                        requires total <= i as int * 0xFFFF_FFFF_FFFF_FFFF;
                },
            }
            if !s.is_complete {
                complete = false;
            }
        } else {
            assert(total <= (i as int + 1) * 0xFFFF_FFFF_FFFF_FFFF) by (nonlinear_arith)
                requires total <= i as int * 0xFFFF_FFFF_FFFF_FFFF;
        }
        proof {
            let t0 = sessions@.take(i as int);
            if s.date == date {
                if complete {
                    assert forall|k: int| 0 <= k < t.len() && #[trigger] t[k].date == date implies t[k].is_complete by {
                        if k < i {
                            assert(t0[k] == t[k]);
                        }
                    }
                } else if s.is_complete {
                    let k = choose|k: int| 0 <= k < t0.len() && #[trigger] t0[k].date == date && !t0[k].is_complete;
                    assert(t[k] == t0[k]);
                }
            } else {
                if complete {
                    assert forall|k: int| 0 <= k < t.len() && #[trigger] t[k].date == date implies t[k].is_complete by {
                        if k < i {
                            assert(t0[k] == t[k]);
                        }
                    }
                } else {
                    let k = choose|k: int| 0 <= k < t0.len() && #[trigger] t0[k].date == date && !t0[k].is_complete;
                    assert(t[k] == t0[k]);
                }
            }
        }
        i = i + 1;
    }
    proof {
        assert(sessions@.take(i as int) =~= sessions@);
    }
    Summary {
        date,
        first_checkin_time: first,
        last_checkout_time: last,
        total_work_minutes: total,
        total_sessions: count,
        is_complete: count > 0 && complete,
    }
}

} // verus!
