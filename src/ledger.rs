//! One user's event log and sessions, and the synchronisation operations on
//! them: incremental sync, count-check and full history.
use vstd::prelude::*;
use crate::event::{
    Action, Event, GeoPoint, action_of, is_time_ordered, normalize, parse_action, time_ordered,
};
use crate::session::{
    MatchCursor, Session, check_sessions, count_on, is_candidate, latest_candidate, lemma_count_on_push,
    lemma_latest_candidate, lemma_run_valid, match_events, matched, opened, orphan, run,
    sessions_valid, step, admin_step, apply_admin_event, lemma_admin_step_valid,
};
use crate::summary::{Summary, summarize, summary_of, total_minutes};
use crate::event::{day_of, insert_in_order};
use crate::session::{MAX_SESSION_SECONDS, closed, rounded_minutes};

verus! {

/// An event as a device submits it, before its action word is checked.
pub struct SubmittedEvent {
    pub action: String,
    pub timestamp: i64,
    pub location: Option<GeoPoint>,
}

/// Why a sync batch was refused.
#[derive(Clone, Copy, Debug, PartialEq, Eq, Structural)]
pub enum SyncError {
    /// The event at `index` has an action word other than `IN` or `OUT`.
    InvalidAction { index: usize },
}

/// The sessions of one day, in order of their numbers, and their summary.
pub struct DailySessions {
    pub date: i64,
    pub sessions: Vec<Session>,
    pub summary: Summary,
}

/// The mathematical content of a ledger.
pub struct LedgerModel {
    pub events: Seq<Event>,
    pub sessions: Seq<Session>,
}

/// One user's append-only event log together with the sessions derived from it.
pub struct Ledger {
    events: Vec<Event>,
    sessions: Vec<Session>,
}

impl View for Ledger {
    type V = LedgerModel;

    closed spec fn view(&self) -> LedgerModel {
        LedgerModel { events: self.events@, sessions: self.sessions@ }
    }
}

/// `log` after appending, in order, each event of `batch` that it does not
/// hold yet.
pub open spec fn absorb(log: Seq<Event>, batch: Seq<Event>) -> Seq<Event>
    decreases batch.len(),
{
    if batch.len() == 0 {
        log
    } else {
        let l = absorb(log, batch.drop_last());
        if l.contains(batch.last()) {
            l
        } else {
            l.push(batch.last())
        }
    }
}

/// The events of `batch` that `log` did not hold, once each, in submission order.
pub open spec fn fresh_events(log: Seq<Event>, batch: Seq<Event>) -> Seq<Event> {
    absorb(log, batch).subrange(log.len() as int, absorb(log, batch).len() as int)
}

/// The ledger after an incremental sync of `batch`: new events are logged and
/// walked, in time order, through the matcher.
pub open spec fn synced(m: LedgerModel, batch: Seq<Event>) -> LedgerModel {
    LedgerModel {
        events: absorb(m.events, batch),
        sessions: matched(m.sessions, time_ordered(fresh_events(m.events, batch))),
    }
}

/// The ledger after an administrator records `e` directly: the event is
/// logged and applied on its own, against the sessions already stored.
pub open spec fn admin_recorded(m: LedgerModel, e: Event) -> LedgerModel {
    LedgerModel { events: m.events.push(e), sessions: admin_step(m.sessions, e) }
}

/// The ledger after `n` submissions of the same batch.
pub open spec fn synced_times(m: LedgerModel, batch: Seq<Event>, n: nat) -> LedgerModel
    decreases n,
{
    if n == 0 {
        m
    } else {
        synced(synced_times(m, batch, (n - 1) as nat), batch)
    }
}

/// The invariant of a ledger.
pub open spec fn ledger_valid(m: LedgerModel) -> bool {
    sessions_valid(m.sessions)
}

/// The events of a submitted batch, when every action word is valid.
pub open spec fn accepted(batch: Seq<SubmittedEvent>) -> Seq<Event> {
    Seq::new(
        batch.len(),
        |i: int|
            Event {
                action: action_of(batch[i].action@).unwrap(),
                timestamp: batch[i].timestamp,
                location: batch[i].location,
            },
    )
}

/// Index of the first event of `batch` whose action word is invalid, if any.
pub open spec fn first_invalid(batch: Seq<SubmittedEvent>) -> Option<int>
    decreases batch.len(),
{
    if batch.len() == 0 {
        None
    } else {
        match first_invalid(batch.drop_last()) {
            Some(i) => Some(i),
            None => if action_of(batch.last().action@).is_none() {
                Some(batch.len() - 1)
            } else {
                None
            },
        }
    }
}

proof fn lemma_first_invalid(batch: Seq<SubmittedEvent>)
    ensures
        first_invalid(batch).is_none() <==> forall|i: int|
            0 <= i < batch.len() ==> action_of(#[trigger] batch[i].action@).is_some(),
    decreases batch.len(),
{
    if batch.len() > 0 {
        let t = batch.drop_last();
        lemma_first_invalid(t);
        assert forall|i: int| 0 <= i < t.len() implies #[trigger] t[i] == batch[i] by {}
        if first_invalid(t).is_some() {
            assert(!(forall|i: int| 0 <= i < t.len() ==> action_of(#[trigger] t[i].action@).is_some()));
            let k = choose|k: int| 0 <= k < t.len() && !action_of(#[trigger] t[k].action@).is_some();
            assert(batch[k] == t[k]);
        } else if action_of(batch.last().action@).is_none() {
            assert(!action_of(batch[batch.len() - 1].action@).is_some());
        } else {
            assert forall|i: int| 0 <= i < batch.len() implies action_of(#[trigger] batch[i].action@).is_some() by {
                if i < t.len() {
                    assert(t[i] == batch[i]);
                }
            }
        }
    }
}

/// Checks the action word of every submitted event.
pub fn validate_batch(batch: &Vec<SubmittedEvent>) -> (r: Result<Vec<Event>, SyncError>)
    ensures
        r.is_ok() <==> first_invalid(batch@).is_none(),
        r.is_ok() <==> forall|i: int| 0 <= i < batch@.len() ==> action_of(#[trigger] batch@[i].action@).is_some(),
        r.is_ok() ==> r.unwrap()@ == accepted(batch@),
        r.is_err() ==> r == Err::<Vec<Event>, SyncError>(
            SyncError::InvalidAction { index: first_invalid(batch@).unwrap() as usize },
        ),
{
    proof {
        lemma_first_invalid(batch@);
    }
    let mut out: Vec<Event> = Vec::new();
    let mut i: usize = 0;
    while i < batch.len()
        invariant
            i <= batch.len(),
            first_invalid(batch@.take(i as int)).is_none(),
            out@ == accepted(batch@.take(i as int)),
        decreases batch.len() - i,
    {
        let ghost t = batch@.take(i as int + 1);
        proof {
            assert(t.drop_last() =~= batch@.take(i as int));
            assert(t.last() == batch@[i as int]);
        }
        match parse_action(batch[i].action.as_str()) {
            None => {
                proof {
                    assert(first_invalid(t) == Some(i as int));
                    lemma_first_invalid_prefix(batch@, i as int + 1);
                }
                return Err(SyncError::InvalidAction { index: i });
            },
            Some(a) => {
                out.push(Event { action: a, timestamp: batch[i].timestamp, location: batch[i].location });
                proof {
                    assert(out@ =~= accepted(t));
                }
            },
        }
        i = i + 1;
    }
    proof {
        assert(batch@.take(i as int) =~= batch@);
    }
    Ok(out)
}

proof fn lemma_first_invalid_prefix(batch: Seq<SubmittedEvent>, n: int)
    requires
        0 <= n <= batch.len(),
        first_invalid(batch.take(n)).is_some(),
    ensures
        first_invalid(batch) == first_invalid(batch.take(n)),
    decreases batch.len() - n,
{
    if n < batch.len() {
        let t = batch.take(n + 1);
        assert(t.drop_last() =~= batch.take(n));
        lemma_first_invalid_prefix(batch, n + 1);
    } else {
        assert(batch.take(n) =~= batch);
    }
}

proof fn lemma_absorb_extends(log: Seq<Event>, batch: Seq<Event>)
    ensures
        absorb(log, batch).len() >= log.len(),
        absorb(log, batch).len() <= log.len() + batch.len(),
        absorb(log, batch).subrange(0, log.len() as int) == log,
        forall|k: int| 0 <= k < batch.len() ==> absorb(log, batch).contains(#[trigger] batch[k]),
        forall|k: int| 0 <= k < log.len() ==> absorb(log, batch).contains(#[trigger] log[k]),
    decreases batch.len(),
{
    if batch.len() == 0 {
        assert(log.subrange(0, log.len() as int) =~= log);
        assert forall|k: int| 0 <= k < log.len() implies absorb(log, batch).contains(#[trigger] log[k]) by {
            assert(log[k] == log[k]);
        }
    } else {
        let t = batch.drop_last();
        lemma_absorb_extends(log, t);
        let l = absorb(log, t);
        assert forall|k: int| 0 <= k < t.len() implies #[trigger] t[k] == batch[k] by {}
        if !l.contains(batch.last()) {
            let l2 = l.push(batch.last());
            assert(l2.subrange(0, log.len() as int) =~= l.subrange(0, log.len() as int));
            assert forall|k: int| 0 <= k < batch.len() implies l2.contains(#[trigger] batch[k]) by {
                if k < t.len() {
                    let w = choose|w: int| 0 <= w < l.len() && l[w] == t[k];
                    assert(l2[w] == batch[k]);
                } else {
                    assert(l2[l.len() as int] == batch[k]);
                }
            }
            assert forall|k: int| 0 <= k < log.len() implies l2.contains(#[trigger] log[k]) by {
                let w = choose|w: int| 0 <= w < l.len() && l[w] == log[k];
                assert(l2[w] == log[k]);
            }
        } else {
            assert forall|k: int| 0 <= k < batch.len() implies l.contains(#[trigger] batch[k]) by {
                if k < t.len() {
                    assert(t[k] == batch[k]);
                }
            }
        }
    }
}

proof fn lemma_absorb_known(log: Seq<Event>, batch: Seq<Event>)
    requires
        forall|k: int| 0 <= k < batch.len() ==> log.contains(#[trigger] batch[k]),
    ensures
        absorb(log, batch) == log,
    decreases batch.len(),
{
    if batch.len() > 0 {
        let t = batch.drop_last();
        assert forall|k: int| 0 <= k < t.len() implies log.contains(#[trigger] t[k]) by {
            assert(t[k] == batch[k]);
        }
        lemma_absorb_known(log, t);
        assert(log.contains(batch[batch.len() - 1]));
    }
}

/// Whether `log` holds `e`.
fn holds_event(log: &Vec<Event>, e: Event) -> (r: bool)
    ensures
        r == log@.contains(e),
{
    let mut i: usize = 0;
    while i < log.len()
        invariant
            i <= log.len(),
            forall|k: int| 0 <= k < i ==> log@[k] != e,
        decreases log.len() - i,
    {
        if log[i] == e {
            return true;
        }
        i = i + 1;
    }
    false
}

/// Decision of the count-check.
#[derive(Clone, Copy, Debug, PartialEq, Eq, Structural)]
pub enum SyncAction {
    /// The counts agree: nothing to do.
    UpToDate,
    /// The client holds more events: it pushes them.
    Incremental,
    /// The server holds more events: the client pulls the full history.
    Full,
}

/// The count-check decision for the two event counts.
pub open spec fn sync_action_for(local_count: int, server_count: int) -> SyncAction {
    if local_count == server_count {
        SyncAction::UpToDate
    } else if server_count < local_count {
        SyncAction::Incremental
    } else {
        SyncAction::Full
    }
}

/// The word that reports a count-check decision to a client.
pub open spec fn action_word(a: SyncAction) -> Seq<char> {
    match a {
        SyncAction::UpToDate => seq!['n', 'o', 'n', 'e'],
        SyncAction::Incremental => seq!['i', 'n', 'c', 'r', 'e', 'm', 'e', 'n', 't', 'a', 'l'],
        SyncAction::Full => seq!['f', 'u', 'l', 'l'],
    }
}

/// Compares a client's local event count with the server's.
pub fn decide_sync(local_count: i64, server_count: i64) -> (r: SyncAction)
    ensures
        r == sync_action_for(local_count as int, server_count as int),
{
    if server_count == local_count {
        SyncAction::UpToDate
    } else if server_count < local_count {
        SyncAction::Incremental
    } else {
        SyncAction::Full
    }
}

impl SyncAction {
    /// The word that reports this decision: `none`, `incremental` or `full`.
    pub fn as_word(&self) -> (r: String)
        ensures
            r@ == action_word(*self),
    {
        match self {
            SyncAction::UpToDate => {
                let w = "none";
                proof {
                    reveal_strlit("none");
                }
                w.to_string()
            },
            SyncAction::Incremental => {
                let w = "incremental";
                proof {
                    reveal_strlit("incremental");
                }
                w.to_string()
            },
            SyncAction::Full => {
                let w = "full";
                proof {
                    reveal_strlit("full");
                }
                w.to_string()
            },
        }
    }
}

/// The answer to a count-check.
pub struct CountResponse {
    pub action: String,
    pub server_count: i64,
}

/// Builds the answer to a count-check from the two counts.
pub fn check_count(local_count: i64, server_count: i64) -> (r: CountResponse)
    ensures
        r.action@ == action_word(sync_action_for(local_count as int, server_count as int)),
        r.server_count == server_count,
{
    let a = decide_sync(local_count, server_count);
    CountResponse { action: a.as_word(), server_count }
}

impl Ledger {
    /// The invariant of this ledger.
    pub open spec fn wf(&self) -> bool {
        ledger_valid(self@)
    }

    /// An empty ledger.
    pub fn new() -> (r: Ledger)
        ensures
            r@.events == Seq::<Event>::empty(),
            r@.sessions == Seq::<Session>::empty(),
            r.wf(),
    {
        Ledger { events: Vec::new(), sessions: Vec::new() }
    }

    /// A ledger over stored events and sessions, when the sessions satisfy
    /// the invariant.
    pub fn restore(events: Vec<Event>, sessions: Vec<Session>) -> (r: Option<Ledger>)
        ensures
            r.is_some() <==> sessions_valid(sessions@),
            r.is_some() ==> r.unwrap()@.events == events@ && r.unwrap()@.sessions == sessions@
                && r.unwrap().wf(),
    {
        if check_sessions(&sessions) {
            Some(Ledger { events, sessions })
        } else {
            None
        }
    }

    /// Number of events in the log: the server count of the count-check.
    pub fn server_count(&self) -> (r: usize)
        ensures
            r == self@.events.len(),
    {
        self.events.len()
    }

    /// The sessions, in order of creation.
    pub fn sessions(&self) -> (r: &Vec<Session>)
        ensures
            r@ == self@.sessions,
    {
        &self.sessions
    }

    /// The event log, in order of acceptance.
    pub fn events(&self) -> (r: &Vec<Event>)
        ensures
            r@ == self@.events,
    {
        &self.events
    }

    /// Incremental sync of already validated events. Events the log already
    /// holds are skipped, so a batch can be resent safely. Returns how many
    /// events were new.
    pub fn sync_events(&mut self, batch: &Vec<Event>) -> (r: usize)
        requires
            old(self).wf(),
            old(self)@.sessions.len() + batch@.len() < usize::MAX,
        ensures
            final(self)@ == synced(old(self)@, batch@),
            final(self).wf(),
            r == fresh_events(old(self)@.events, batch@).len(),
    {
        let ghost m0 = self@;
        let ghost log0 = self.events@;
        let mut fresh: Vec<Event> = Vec::new();
        let mut i: usize = 0;
        while i < batch.len()
            invariant
                i <= batch.len(),
                self.sessions@ == m0.sessions,
                self.events@ == absorb(log0, batch@.take(i as int)),
                self.events@.len() >= log0.len(),
                fresh@ == self.events@.subrange(log0.len() as int, self.events@.len() as int),
                fresh@.len() <= i,
            decreases batch.len() - i,
        {
            let e = batch[i];
            proof {
                let t = batch@.take(i as int + 1);
                assert(t.drop_last() =~= batch@.take(i as int));
                assert(t.last() == e);
            }
            if !holds_event(&self.events, e) {
                self.events.push(e);
                fresh.push(e);
                proof {
                    assert(fresh@ =~= self.events@.subrange(log0.len() as int, self.events@.len() as int));
                }
            }
            i = i + 1;
        }
        proof {
            assert(batch@.take(i as int) =~= batch@);
            crate::event::lemma_time_ordered(fresh@);
            lemma_run_valid(m0.sessions, time_ordered(fresh@));
        }
        let sorted = normalize(&fresh);
        match_events(&mut self.sessions, &sorted);
        fresh.len()
    }

    /// Records one event entered by an administrator.
    pub fn record_admin_event(&mut self, e: Event)
        requires
            old(self).wf(),
            old(self)@.sessions.len() + 1 < usize::MAX,
        ensures
            final(self).wf(),
            final(self)@ == admin_recorded(old(self)@, e),
    {
        proof {
            lemma_admin_step_valid(self.sessions@, e);
        }
        self.events.push(e);
        apply_admin_event(&mut self.sessions, e);
    }

    /// Incremental sync of a submitted batch: the whole batch is refused,
    /// and nothing changes, when any action word is invalid.
    pub fn sync_checkins(&mut self, batch: &Vec<SubmittedEvent>) -> (r: Result<usize, SyncError>)
        requires
            old(self).wf(),
            old(self)@.sessions.len() + batch@.len() < usize::MAX,
        ensures
            final(self).wf(),
            r.is_ok() <==> first_invalid(batch@).is_none(),
            r.is_ok() ==> final(self)@ == synced(old(self)@, accepted(batch@)) && r.unwrap()
                == fresh_events(old(self)@.events, accepted(batch@)).len(),
            r.is_err() ==> final(self)@ == old(self)@ && r == Err::<usize, SyncError>(
                SyncError::InvalidAction { index: first_invalid(batch@).unwrap() as usize },
            ),
    {
        match validate_batch(batch) {
            Err(e) => Err(e),
            Ok(events) => Ok(self.sync_events(&events)),
        }
    }

    /// The count-check against a client's local event count.
    pub fn check_count(&self, local_count: i64) -> (r: CountResponse)
        requires
            self@.events.len() <= i64::MAX,
        ensures
            r.action@ == action_word(sync_action_for(local_count as int, self@.events.len() as int)),
            r.server_count == self@.events.len(),
    {
        check_count(local_count, self.events.len() as i64)
    }

    /// The complete event history in ascending timestamp order.
    pub fn full_sync(&self) -> (r: Vec<Event>)
        ensures
            r@ == time_ordered(self@.events),
            is_time_ordered(r@),
            r@.to_multiset() =~= self@.events.to_multiset(),
    {
        normalize(&self.events)
    }

    /// The summary of one day.
    pub fn summary(&self, date: i64) -> (r: Summary)
        ensures
            r == summary_of(self@.sessions, date),
            r.total_work_minutes == total_minutes(self@.sessions, date as int),
            r.total_sessions == count_on(self@.sessions, date as int),
    {
        summarize(&self.sessions, date)
    }

    /// The sessions of one day, in order of their numbers, with the day's summary.
    pub fn daily_sessions(&self, date: i64) -> (r: DailySessions)
        ensures
            r.date == date,
            r.sessions@ == self@.sessions.filter(|x: Session| x.date == date),
            r.summary == summary_of(self@.sessions, date),
            r.summary.total_work_minutes == total_minutes(self@.sessions, date as int),
            r.summary.total_sessions == count_on(self@.sessions, date as int),
    {
        let mut out: Vec<Session> = Vec::new();
        let mut i: usize = 0;
        while i < self.sessions.len()
            invariant
                i <= self.sessions.len(),
                out@ == self.sessions@.take(i as int).filter(|x: Session| x.date == date),
            decreases self.sessions.len() - i,
        {
            proof {
                let t = self.sessions@.take(i as int + 1);
                assert(t.drop_last() =~= self.sessions@.take(i as int));
                assert(t.last() == self.sessions@[i as int]);
                reveal(Seq::filter);
            }
            if self.sessions[i].date == date {
                out.push(self.sessions[i]);
            }
            i = i + 1;
        }
        proof {
            assert(self.sessions@.take(i as int) =~= self.sessions@);
        }
        DailySessions { date, sessions: out, summary: summarize(&self.sessions, date) }
    }
}

/// Session `i` of `after` is new or differs from session `i` of `before`.
pub open spec fn changed_at(before: Seq<Session>, after: Seq<Session>, i: int) -> bool {
    i >= before.len() || before[i] != after[i]
}

/// The positions, in increasing order, of the sessions of `after` that are
/// new or changed against `before`: what must be written back.
pub fn changed_sessions(before: &Vec<Session>, after: &Vec<Session>) -> (r: Vec<usize>)
    ensures
        forall|k: int|
            0 <= k < r@.len() ==> #[trigger] r@[k] < after@.len() && changed_at(before@, after@, r@[k] as int),
        forall|i: int| 0 <= i < after@.len() && changed_at(before@, after@, i) ==> r@.contains(i as usize),
        forall|j: int, k: int| 0 <= j < k < r@.len() ==> r@[j] < r@[k],
{
    let mut r: Vec<usize> = Vec::new();
    let mut i: usize = 0;
    while i < after.len()
        invariant
            i <= after@.len(),
            forall|k: int| 0 <= k < r@.len() ==> #[trigger] r@[k] < i && changed_at(before@, after@, r@[k] as int),
            forall|x: int| 0 <= x < i && changed_at(before@, after@, x) ==> r@.contains(x as usize),
            forall|j: int, k: int| 0 <= j < k < r@.len() ==> r@[j] < r@[k],
        decreases after@.len() - i,
    {
        let changed = i >= before.len() || before[i] != after[i];
        if changed {
            let ghost old_r = r@;
            r.push(i);
            proof {
                assert forall|x: int| 0 <= x < i + 1 && changed_at(before@, after@, x) implies r@.contains(x as usize) by {
                    if x == i {
                        assert(r@[r@.len() - 1] == i);
                    } else {
                        assert(old_r.contains(x as usize));
                        let w = choose|w: int| 0 <= w < old_r.len() && old_r[w] == x as usize;
                        assert(r@[w] == x as usize);
                    }
                }
            }
        } else {
            proof {
                assert forall|x: int| 0 <= x < i + 1 && changed_at(before@, after@, x) implies r@.contains(x as usize) by {
                    assert(x != i);
                }
            }
        }
        i = i + 1;
    }
    r
}

/// Whether `v` holds `d`.
fn holds_day(v: &Vec<i64>, d: i64) -> (r: bool)
    ensures
        r == v@.contains(d),
{
    let mut i: usize = 0;
    while i < v.len()
        invariant
            i <= v@.len(),
            forall|k: int| 0 <= k < i ==> v@[k] != d,
        decreases v@.len() - i,
    {
        if v[i] == d {
            return true;
        }
        i = i + 1;
    }
    false
}

/// The days, each once, of the sessions of `after` that are new or changed
/// against `before`: the days whose summaries must be rewritten.
pub fn changed_days(before: &Vec<Session>, after: &Vec<Session>) -> (r: Vec<i64>)
    ensures
        forall|d: i64|
            #[trigger] r@.contains(d) <==> exists|i: int|
                0 <= i < after@.len() && changed_at(before@, after@, i) && #[trigger] after@[i].date == d,
        r@.no_duplicates(),
{
    let mut r: Vec<i64> = Vec::new();
    let mut i: usize = 0;
    while i < after.len()
        invariant
            i <= after@.len(),
            forall|d: i64|
                #[trigger] r@.contains(d) <==> exists|x: int|
                    0 <= x < i && changed_at(before@, after@, x) && #[trigger] after@[x].date == d,
            r@.no_duplicates(),
        decreases after@.len() - i,
    {
        let changed = i >= before.len() || before[i] != after[i];
        let d = after[i].date;
        if changed && !holds_day(&r, d) {
            let ghost old_r = r@;
            r.push(d);
            proof {
                assert forall|e: i64|
                    #[trigger] r@.contains(e) <==> exists|x: int|
                        0 <= x < i + 1 && changed_at(before@, after@, x) && #[trigger] after@[x].date == e by {
                    if r@.contains(e) {
                        if e != d {
                            let w = choose|w: int| 0 <= w < r@.len() && r@[w] == e;
                            assert(old_r[w] == e);
                            assert(old_r.contains(e));
                        } else {
                            assert(after@[i as int].date == e);
                        }
                    }
                    if exists|x: int| 0 <= x < i + 1 && changed_at(before@, after@, x) && #[trigger] after@[x].date == e {
                        if e != d {
                            let x = choose|x: int| 0 <= x < i + 1 && changed_at(before@, after@, x) && #[trigger] after@[x].date == e;
                            assert(x < i);
                            assert(old_r.contains(e));
                            let w = choose|w: int| 0 <= w < old_r.len() && old_r[w] == e;
                            assert(r@[w] == e);
                        } else {
                            assert(r@[r@.len() - 1] == e);
                        }
                    }
                }
                assert forall|j: int, k: int| 0 <= j < r@.len() && 0 <= k < r@.len() && j != k implies r@[j] != r@[k] by {
                    if j < old_r.len() && k < old_r.len() {
                    } else if j < old_r.len() {
                        assert(old_r.contains(r@[j]));
                    } else {
                        assert(old_r.contains(r@[k]));
                    }
                }
            }
        } else {
            proof {
                assert forall|e: i64|
                    #[trigger] r@.contains(e) <==> exists|x: int|
                        0 <= x < i + 1 && changed_at(before@, after@, x) && #[trigger] after@[x].date == e by {
                    if exists|x: int| 0 <= x < i + 1 && changed_at(before@, after@, x) && #[trigger] after@[x].date == e {
                        let x = choose|x: int| 0 <= x < i + 1 && changed_at(before@, after@, x) && #[trigger] after@[x].date == e;
                        if x == i {
                            assert(r@.contains(d));
                        }
                    }
                }
            }
        }
        i = i + 1;
    }
    r
}

/// Resending a batch that was already synced changes nothing.
pub proof fn lemma_resync_idempotent(m: LedgerModel, batch: Seq<Event>)
    ensures
        synced(synced(m, batch), batch) == synced(m, batch),
{
    let m1 = synced(m, batch);
    lemma_absorb_extends(m.events, batch);
    lemma_absorb_known(m1.events, batch);
    let f = fresh_events(m1.events, batch);
    assert(f =~= Seq::<Event>::empty());
    assert(time_ordered(f) =~= Seq::<Event>::empty());
    assert(run(m1.sessions, time_ordered(f)).0 == m1.sessions);
}

/// Submitting the same batch any positive number of times leaves the ledger
/// as submitting it once does.
pub proof fn lemma_resync_any_times(m: LedgerModel, batch: Seq<Event>, n: nat)
    requires
        n >= 1,
    ensures
        synced_times(m, batch, n) == synced(m, batch),
    decreases n,
{
    if n > 1 {
        lemma_resync_any_times(m, batch, (n - 1) as nat);
        lemma_resync_idempotent(m, batch);
    } else {
        assert(synced_times(m, batch, 0) == m);
    }
}

proof fn lemma_sync_single(m: LedgerModel, e: Event)
    requires
        !m.events.contains(e),
    ensures
        synced(m, seq![e]).events == m.events.push(e),
        synced(m, seq![e]).sessions == run(m.sessions, seq![e]).0,
        run(m.sessions, seq![e]) == step(m.sessions, MatchCursor { day: None, open: None }, e),
{
    let b = seq![e];
    assert(b.drop_last() =~= Seq::<Event>::empty());
    assert(absorb(m.events, b.drop_last()) == m.events);
    assert(absorb(m.events, b) == m.events.push(e));
    assert(fresh_events(m.events, b) =~= seq![e]);
    assert(seq![e].drop_last() =~= Seq::<Event>::empty());
    assert(time_ordered(Seq::<Event>::empty()) == Seq::<Event>::empty());
    assert(insert_in_order(Seq::<Event>::empty(), e) == seq![e]);
    assert(time_ordered(seq![e]) == seq![e]);
    assert(run(m.sessions, Seq::<Event>::empty()) == (
        m.sessions,
        MatchCursor { day: None, open: None },
    ));
    assert(run(m.sessions, seq![e]) == step(m.sessions, MatchCursor { day: None, open: None }, e));
}

/// Two syncs of one user, each carrying one `IN` at distinct instants of the
/// same day, in either order, leave two new sessions on that day with
/// consecutive numbers following those already there; both events are logged
/// and the ledger stays valid, so no number is used twice.
pub proof fn lemma_two_checkins_same_day(m: LedgerModel, e1: Event, e2: Event)
    requires
        ledger_valid(m),
        m.sessions.len() + 2 < usize::MAX,
        e1.action == Action::In,
        e2.action == Action::In,
        day_of(e1.timestamp) == day_of(e2.timestamp),
        e1.timestamp != e2.timestamp,
        !m.events.contains(e1),
        !m.events.contains(e2),
    ensures
        ({
            let d = day_of(e1.timestamp);
            let k = count_on(m.sessions, d);
            let m2 = synced(synced(m, seq![e1]), seq![e2]);
            &&& m2.events == m.events.push(e1).push(e2)
            &&& m2.sessions == m.sessions.push(opened(d, k + 1, e1)).push(opened(d, k + 2, e2))
            &&& ledger_valid(m2)
        }),
{
    let d = day_of(e1.timestamp);
    let k = count_on(m.sessions, d);
    lemma_sync_single(m, e1);
    let m1 = synced(m, seq![e1]);
    let x1 = opened(d, k + 1, e1);
    assert(m1.sessions == m.sessions.push(x1));
    lemma_count_on_push(m.sessions, x1, d);
    assert(!m1.events.contains(e2)) by {
        if m1.events.contains(e2) {
            let w = choose|w: int| 0 <= w < m1.events.len() && m1.events[w] == e2;
            if w < m.events.len() {
                assert(m.events[w] == e2);
            }
        }
    }
    lemma_sync_single(m1, e2);
    lemma_run_valid(m.sessions, seq![e1]);
    lemma_run_valid(m1.sessions, seq![e2]);
    assert(seq![e1].drop_last() =~= Seq::<Event>::empty());
    assert(seq![e2].drop_last() =~= Seq::<Event>::empty());
}

/// An `OUT` that finds no open session of its batch and no previous-day
/// candidate leaves exactly one new session, checked in and out at its
/// instant, with a duration of zero.
pub proof fn lemma_unmatched_checkout(m: LedgerModel, e: Event)
    requires
        ledger_valid(m),
        m.sessions.len() + 1 < usize::MAX,
        e.action == Action::Out,
        !m.events.contains(e),
        forall|k: int|
            0 <= k < m.sessions.len() ==> !is_candidate(
                #[trigger] m.sessions[k],
                day_of(e.timestamp),
                e.timestamp,
                false,
            ),
    ensures
        ({
            let d = day_of(e.timestamp);
            let m1 = synced(m, seq![e]);
            let x = m1.sessions.last();
            &&& m1.sessions == m.sessions.push(orphan(d, count_on(m.sessions, d) + 1, e))
            &&& x.checkin_time == e.timestamp
            &&& x.checkout_time == Some(e.timestamp)
            &&& x.duration_minutes == Some(0u64)
            &&& ledger_valid(m1)
        }),
{
    let d = day_of(e.timestamp);
    lemma_latest_candidate(m.sessions, d, e.timestamp, false);
    lemma_sync_single(m, e);
    lemma_run_valid(m.sessions, seq![e]);
    assert(seq![e].drop_last() =~= Seq::<Event>::empty());
}

proof fn lemma_no_sessions_on(s: Seq<Session>, date: int)
    requires
        forall|k: int| 0 <= k < s.len() ==> #[trigger] s[k].date != date,
    ensures
        count_on(s, date) == 0,
    decreases s.len(),
{
    if s.len() > 0 {
        let t = s.drop_last();
        assert forall|k: int| 0 <= k < t.len() implies #[trigger] t[k].date != date by {
            assert(t[k] == s[k]);
        }
        lemma_no_sessions_on(t, date);
    }
}

/// The `OUT` of a midnight crossing finds the session its `IN` opened.
proof fn lemma_crossing_found(s: Seq<Session>, x: Session, e_out: Event)
    requires
        forall|k: int| 0 <= k < s.len() ==> #[trigger] s[k].date != day_of(e_out.timestamp) - 1,
        is_candidate(x, day_of(e_out.timestamp), e_out.timestamp, false),
    ensures
        latest_candidate(s.push(x), day_of(e_out.timestamp), e_out.timestamp, false) == Some(s.len() as int),
{
    let d2 = day_of(e_out.timestamp);
    lemma_latest_candidate(s, d2, e_out.timestamp, false);
    assert(s.push(x).drop_last() =~= s);
    if latest_candidate(s, d2, e_out.timestamp, false).is_some() {
        let j = latest_candidate(s, d2, e_out.timestamp, false).unwrap();
        assert(s[j].date != d2 - 1);
    }
}

/// A shift across midnight stays one session: an `IN` on one day and an
/// `OUT` on the next, less than the longest shift later, synced in one batch
/// or in two, give a single session on the first day checked in at the `IN`
/// and out at the `OUT`, and no session on the second day.
pub proof fn lemma_midnight_crossing(m: LedgerModel, e_in: Event, e_out: Event)
    requires
        e_in.action == Action::In,
        e_out.action == Action::Out,
        day_of(e_out.timestamp) == day_of(e_in.timestamp) + 1,
        e_in.timestamp < e_out.timestamp,
        e_out.timestamp - e_in.timestamp < MAX_SESSION_SECONDS,
        !m.events.contains(e_in),
        !m.events.contains(e_out),
        forall|k: int|
            0 <= k < m.sessions.len() ==> #[trigger] m.sessions[k].date != day_of(e_in.timestamp)
                && m.sessions[k].date != day_of(e_out.timestamp),
    ensures
        ({
            let d = day_of(e_in.timestamp);
            let x = closed(opened(d, 1, e_in), e_out);
            let one = synced(m, seq![e_in, e_out]);
            let two = synced(synced(m, seq![e_in]), seq![e_out]);
            &&& one.sessions == m.sessions.push(x)
            &&& two.sessions == m.sessions.push(x)
            &&& x.checkin_time == e_in.timestamp
            &&& x.checkout_time == Some(e_out.timestamp)
            &&& x.duration_minutes == Some(rounded_minutes(e_in.timestamp, e_out.timestamp) as u64)
            &&& count_on(one.sessions, d + 1) == 0
            &&& count_on(two.sessions, d + 1) == 0
        }),
{
    let d = day_of(e_in.timestamp);
    let d2 = day_of(e_out.timestamp);
    let s = m.sessions;
    let ev = m.events;
    let idle = MatchCursor { day: None, open: None };
    lemma_no_sessions_on(s, d);
    lemma_no_sessions_on(s, d2);
    let x0 = opened(d, 1, e_in);
    let x = closed(x0, e_out);
    assert(step(s, idle, e_in) == (s.push(x0), MatchCursor { day: Some(d as i64), open: Some(s.len() as usize) }));
    assert(is_candidate(x0, d2, e_out.timestamp, false));
    lemma_crossing_found(s, x0, e_out);
    let s1 = s.push(x0);
    assert(s1.update(s.len() as int, closed(s1[s.len() as int], e_out)) =~= s.push(x));
    assert(step(s1, MatchCursor { day: Some(d as i64), open: Some(s.len() as usize) }, e_out).0 == s.push(x));
    assert(step(s1, idle, e_out).0 == s.push(x));
    lemma_count_on_push(s, x, d2);

    // one batch
    let b = seq![e_in, e_out];
    assert(b.drop_last() =~= seq![e_in]);
    assert(seq![e_in].drop_last() =~= Seq::<Event>::empty());
    assert(absorb(ev, seq![e_in].drop_last()) == ev);
    assert(absorb(ev, seq![e_in]) == ev.push(e_in));
    assert(!ev.push(e_in).contains(e_out)) by {
        if ev.push(e_in).contains(e_out) {
            let w = choose|w: int| 0 <= w < ev.len() + 1 && ev.push(e_in)[w] == e_out;
            if w < ev.len() {
                assert(ev[w] == e_out);
            }
        }
    }
    assert(absorb(ev, b) == ev.push(e_in).push(e_out));
    assert(fresh_events(ev, b) =~= b);
    assert(time_ordered(Seq::<Event>::empty()) == Seq::<Event>::empty());
    assert(insert_in_order(Seq::<Event>::empty(), e_in) == seq![e_in]);
    assert(time_ordered(seq![e_in]) == seq![e_in]);
    assert(seq![e_in].push(e_out) =~= b);
    assert(insert_in_order(seq![e_in], e_out) == b);
    assert(time_ordered(b) == b);
    assert(run(s, Seq::<Event>::empty()) == (s, idle));
    assert(run(s, seq![e_in]) == step(s, idle, e_in));
    assert(run(s, b).0 == s.push(x));

    // two batches
    lemma_sync_single(m, e_in);
    let m1 = synced(m, seq![e_in]);
    assert(m1.sessions == s1);
    assert(!m1.events.contains(e_out));
    lemma_sync_single(m1, e_out);
}

proof fn lemma_absorb_new(log: Seq<Event>, batch: Seq<Event>)
    requires
        forall|k: int| 0 <= k < batch.len() ==> !log.contains(#[trigger] batch[k]),
        batch.no_duplicates(),
    ensures
        absorb(log, batch) == log + batch,
    decreases batch.len(),
{
    if batch.len() > 0 {
        let t = batch.drop_last();
        assert forall|k: int| 0 <= k < t.len() implies !log.contains(#[trigger] t[k]) by {
            assert(t[k] == batch[k]);
        }
        assert(t.no_duplicates()) by {
            assert forall|i: int, j: int| 0 <= i < t.len() && 0 <= j < t.len() && i != j implies t[i] != t[j] by {
                assert(t[i] == batch[i] && t[j] == batch[j]);
            }
        }
        lemma_absorb_new(log, t);
        let e = batch.last();
        assert(!(log + t).contains(e)) by {
            if (log + t).contains(e) {
                let w = choose|w: int| 0 <= w < (log + t).len() && (log + t)[w] == e;
                if w < log.len() {
                    assert(log[w] == e);
                    assert(!log.contains(batch[batch.len() - 1]));
                } else {
                    assert(t[w - log.len()] == batch[w - log.len()]);
                    assert(batch[w - log.len()] == batch[batch.len() - 1]);
                }
            }
        }
        assert((log + t).push(e) =~= log + batch);
    }
}

/// A batch of new, distinct events acts only through its time order: two
/// such batches that sort to the same sequence (events sharing a timestamp
/// in the same submission order) leave the same sessions and summaries.
pub proof fn lemma_sessions_follow_time_order(m: LedgerModel, a: Seq<Event>, b: Seq<Event>)
    requires
        forall|k: int| 0 <= k < a.len() ==> !m.events.contains(#[trigger] a[k]),
        forall|k: int| 0 <= k < b.len() ==> !m.events.contains(#[trigger] b[k]),
        a.no_duplicates(),
        b.no_duplicates(),
        time_ordered(a) == time_ordered(b),
    ensures
        synced(m, a).sessions == synced(m, b).sessions,
        forall|date: i64| #[trigger] summary_of(synced(m, a).sessions, date) == summary_of(synced(m, b).sessions, date),
{
    lemma_absorb_new(m.events, a);
    lemma_absorb_new(m.events, b);
    assert(fresh_events(m.events, a) =~= a);
    assert(fresh_events(m.events, b) =~= b);
}

} // verus!
