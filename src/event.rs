//! Presence events and their normalisation: validation of the action word,
//! calendar-day bucketing of UTC instants, and the stable time ordering
//! in which events reach the session matcher.
use vstd::prelude::*;

verus! {

/// Seconds in one calendar day.
pub const SECONDS_PER_DAY: i64 = 86400;

/// The two kinds of presence event.
#[derive(Clone, Copy, Debug, PartialEq, Eq, Structural)]
pub enum Action {
    In,
    Out,
}

/// A geotag in fixed point: degrees times ten million.
#[derive(Clone, Copy, Debug, PartialEq, Eq, Structural)]
pub struct GeoPoint {
    pub latitude_e7: i64,
    pub longitude_e7: i64,
}

/// One accepted presence event of a user. `timestamp` is a UTC instant in
/// whole seconds since the Unix epoch.
#[derive(Clone, Copy, Debug, PartialEq, Eq, Structural)]
pub struct Event {
    pub action: Action,
    pub timestamp: i64,
    pub location: Option<GeoPoint>,
}

/// The calendar day (days since the Unix epoch) holding a UTC instant.
pub open spec fn day_of(ts: i64) -> int {
    ts as int / SECONDS_PER_DAY as int
}

/// The action named by a submitted action word, if it is one.
pub open spec fn action_of(word: Seq<char>) -> Option<Action> {
    if word == seq!['I', 'N'] {
        Some(Action::In)
    } else if word == seq!['O', 'U', 'T'] {
        Some(Action::Out)
    } else {
        None
    }
}

/// Computes the calendar day of a UTC instant, rounding toward the past.
pub fn day_number(ts: i64) -> (r: i64)
    ensures
        r as int == day_of(ts),
{
    if ts >= 0 {
        let r = ts / SECONDS_PER_DAY;
        assert(r as int == day_of(ts)) by (nonlinear_arith)
            requires r == ts / 86400, ts >= 0;
        r
    } else {
        let back: i64 = -(ts + 1);
        let q = back / SECONDS_PER_DAY;
        let r = -q - 1;
        assert(r as int == day_of(ts)) by (nonlinear_arith)
            requires back == -(ts + 1), q == back / 86400, r == -q - 1, ts < 0, back >= 0;
        r
    }
}

/// Reads an action word: exactly `IN` or `OUT`.
pub fn parse_action(word: &str) -> (r: Option<Action>)
    ensures
        r == action_of(word@),
{
    let n = word.unicode_len();
    if n == 2 && word.get_char(0) == 'I' && word.get_char(1) == 'N' {
        assert(word@ =~= seq!['I', 'N']);
        Some(Action::In)
    } else if n == 3 && word.get_char(0) == 'O' && word.get_char(1) == 'U' && word.get_char(2) == 'T' {
        assert(word@ =~= seq!['O', 'U', 'T']);
        Some(Action::Out)
    } else {
        assert(word@ != seq!['I', 'N'] ==> action_of(word@) != Some(Action::In));
        None
    }
}


/// Places `e` after every element of `s` (scanned from the back) whose
/// timestamp does not exceed its own: one step of a stable insertion sort.
pub open spec fn insert_in_order(s: Seq<Event>, e: Event) -> Seq<Event>
    decreases s.len(),
{
    if s.len() == 0 {
        seq![e]
    } else if s.last().timestamp <= e.timestamp {
        s.push(e)
    } else {
        insert_in_order(s.drop_last(), e).push(s.last())
    }
}

/// The events of `s` in ascending timestamp order; events with equal
/// timestamps keep their relative order in `s`.
pub open spec fn time_ordered(s: Seq<Event>) -> Seq<Event>
    decreases s.len(),
{
    if s.len() == 0 {
        s
    } else {
        insert_in_order(time_ordered(s.drop_last()), s.last())
    }
}

/// Timestamps never decrease along `s`.
pub open spec fn is_time_ordered(s: Seq<Event>) -> bool {
    forall|i: int, j: int| 0 <= i < j < s.len() ==> #[trigger] s[i].timestamp <= #[trigger] s[j].timestamp
}

/// Events of `s` that share a timestamp are the same event.
pub open spec fn distinct_instants(s: Seq<Event>) -> bool {
    forall|i: int, j: int|
        0 <= i < s.len() && 0 <= j < s.len() && #[trigger] s[i].timestamp == #[trigger] s[j].timestamp
            ==> s[i] == s[j]
}

proof fn lemma_insert_at(s: Seq<Event>, e: Event, p: int)
    requires
        0 <= p <= s.len(),
        p > 0 ==> s[p - 1].timestamp <= e.timestamp,
        forall|k: int| p <= k < s.len() ==> s[k].timestamp > e.timestamp,
    ensures
        insert_in_order(s, e) == s.insert(p, e),
    decreases s.len(),
{
    if s.len() == 0 {
        assert(seq![e] =~= s.insert(p, e));
    } else if s.last().timestamp <= e.timestamp {
        assert(s.push(e) =~= s.insert(p, e));
    } else {
        lemma_insert_at(s.drop_last(), e, p);
        assert(s.drop_last().insert(p, e).push(s.last()) =~= s.insert(p, e));
    }
}

proof fn lemma_insert_in_order(s: Seq<Event>, e: Event)
    requires
        is_time_ordered(s),
    ensures
        is_time_ordered(insert_in_order(s, e)),
        insert_in_order(s, e).to_multiset() =~= s.to_multiset().insert(e),
        insert_in_order(s, e).len() == s.len() + 1,
    decreases s.len(),
{
    broadcast use vstd::seq_lib::group_to_multiset_ensures;
    if s.len() == 0 {
        assert(seq![e] =~= s.push(e));
    } else if s.last().timestamp <= e.timestamp {
    } else {
        let t = s.drop_last();
        lemma_insert_in_order(t, e);
        let u = insert_in_order(t, e);
        assert(s =~= t.push(s.last()));
        // every element of u is no later than s.last()
        assert forall|k: int| 0 <= k < u.len() implies u[k].timestamp <= s.last().timestamp by {
            assert(u.to_multiset().count(u[k]) > 0);
            assert(u.contains(u[k]));
            if u[k] != e {
                assert(t.to_multiset().count(u[k]) > 0);
                assert(t.contains(u[k]));
                let m = choose|m: int| 0 <= m < t.len() && t[m] == u[k];
                assert(s[m] == t[m]);
                assert(s[m].timestamp <= s[s.len() - 1].timestamp);
            }
        }
        let w = u.push(s.last());
        assert forall|i: int, j: int| 0 <= i < j < w.len() implies #[trigger] w[i].timestamp <= #[trigger] w[j].timestamp by {
            if j < u.len() {
                assert(u[i].timestamp <= u[j].timestamp);
            }
        }
    }
}

/// Sorting by `time_ordered` yields ascending timestamps and keeps every event.
pub proof fn lemma_time_ordered(s: Seq<Event>)
    ensures
        is_time_ordered(time_ordered(s)),
        time_ordered(s).to_multiset() =~= s.to_multiset(),
        time_ordered(s).len() == s.len(),
    decreases s.len(),
{
    broadcast use vstd::seq_lib::group_to_multiset_ensures;
    if s.len() > 0 {
        lemma_time_ordered(s.drop_last());
        lemma_insert_in_order(time_ordered(s.drop_last()), s.last());
        assert(s =~= s.drop_last().push(s.last()));
    }
}

proof fn lemma_ordered_unique(a: Seq<Event>, b: Seq<Event>)
    requires
        is_time_ordered(a),
        is_time_ordered(b),
        a.to_multiset() =~= b.to_multiset(),
        distinct_instants(a),
    ensures
        a == b,
    decreases a.len(),
{
    broadcast use vstd::seq_lib::group_to_multiset_ensures;
    assert(a.to_multiset().len() == b.to_multiset().len());
    assert(a.len() == b.len());
    if a.len() > 0 {
        assert(a.to_multiset().count(b[0]) > 0);
        assert(a.contains(b[0]));
        let ia = choose|k: int| 0 <= k < a.len() && a[k] == b[0];
        assert(b.to_multiset().count(a[0]) > 0);
        assert(b.contains(a[0]));
        let ib = choose|k: int| 0 <= k < b.len() && b[k] == a[0];
        assert(a[0].timestamp <= a[ia].timestamp);
        assert(b[0].timestamp <= b[ib].timestamp);
        assert(a[0] == a[ia]);
        assert(a[0] == b[0]);
        let a2 = a.remove(0);
        let b2 = b.remove(0);
        assert(a2.to_multiset() =~= b2.to_multiset());
        assert(is_time_ordered(a2)) by {
            assert forall|i: int, j: int| 0 <= i < j < a2.len() implies #[trigger] a2[i].timestamp <= #[trigger] a2[j].timestamp by {
                assert(a2[i] == a[i + 1] && a2[j] == a[j + 1]);
            }
        }
        assert(is_time_ordered(b2)) by {
            assert forall|i: int, j: int| 0 <= i < j < b2.len() implies #[trigger] b2[i].timestamp <= #[trigger] b2[j].timestamp by {
                assert(b2[i] == b[i + 1] && b2[j] == b[j + 1]);
            }
        }
        assert(distinct_instants(a2)) by {
            assert forall|i: int, j: int|
                0 <= i < a2.len() && 0 <= j < a2.len() && #[trigger] a2[i].timestamp == #[trigger] a2[j].timestamp
                implies a2[i] == a2[j] by {
                assert(a2[i] == a[i + 1] && a2[j] == a[j + 1]);
            }
        }
        lemma_ordered_unique(a2, b2);
        assert(a =~= seq![a[0]] + a2);
        assert(b =~= seq![b[0]] + b2);
    }
}

/// Two batches holding the same events, in which no two different events
/// share a timestamp, are put in the same order whatever order they came in.
pub proof fn lemma_order_of_arrival_irrelevant(a: Seq<Event>, b: Seq<Event>)
    requires
        a.to_multiset() =~= b.to_multiset(),
        distinct_instants(a),
    ensures
        time_ordered(a) == time_ordered(b),
{
    broadcast use vstd::seq_lib::group_to_multiset_ensures;
    lemma_time_ordered(a);
    lemma_time_ordered(b);
    let ta = time_ordered(a);
    assert(distinct_instants(ta)) by {
        assert forall|i: int, j: int|
            0 <= i < ta.len() && 0 <= j < ta.len() && #[trigger] ta[i].timestamp == #[trigger] ta[j].timestamp
            implies ta[i] == ta[j] by {
            assert(ta.to_multiset().count(ta[i]) > 0);
            assert(ta.to_multiset().count(ta[j]) > 0);
            assert(a.contains(ta[i]));
            assert(a.contains(ta[j]));
        }
    }
    lemma_ordered_unique(ta, time_ordered(b));
}

/// Along events in time order the calendar day never decreases: the events of
/// one day form a single run, and the runs come in date order.
pub proof fn lemma_days_follow_time(s: Seq<Event>)
    requires
        is_time_ordered(s),
    ensures
        forall|i: int, j: int| 0 <= i < j < s.len() ==> day_of(#[trigger] s[i].timestamp) <= day_of(#[trigger] s[j].timestamp),
{
    assert forall|i: int, j: int| 0 <= i < j < s.len() implies day_of(#[trigger] s[i].timestamp) <= day_of(
        #[trigger] s[j].timestamp,
    ) by {
        vstd::arithmetic::div_mod::lemma_div_is_ordered(
            s[i].timestamp as int,
            s[j].timestamp as int,
            SECONDS_PER_DAY as int,
        );
    }
}

/// Puts a batch in ascending timestamp order, keeping the submission order of
/// events that share a timestamp.
pub fn normalize(batch: &Vec<Event>) -> (r: Vec<Event>)
    ensures
        r@ == time_ordered(batch@),
        is_time_ordered(r@),
        r@.to_multiset() =~= batch@.to_multiset(),
        forall|i: int, j: int| 0 <= i < j < r@.len() ==> day_of(#[trigger] r@[i].timestamp) <= day_of(#[trigger] r@[j].timestamp),
{
    let mut r: Vec<Event> = Vec::new();
    let mut i: usize = 0;
    while i < batch.len()
        invariant
            i <= batch.len(),
            r@ == time_ordered(batch@.take(i as int)),
        decreases batch.len() - i,
    {
        let e = batch[i];
        let mut p: usize = r.len();
        while p > 0 && r[p - 1].timestamp > e.timestamp
            invariant
                p <= r.len(),
                forall|k: int| p <= k < r.len() ==> r@[k].timestamp > e.timestamp,
            decreases p,
        {
            p = p - 1;
        }
        proof {
            lemma_insert_at(r@, e, p as int);
            assert(batch@.take(i as int + 1).drop_last() =~= batch@.take(i as int));
        }
        r.insert(p, e);
        i = i + 1;
    }
    proof {
        assert(batch@.take(i as int) =~= batch@);
        lemma_time_ordered(batch@);
        lemma_days_follow_time(r@);
    }
    r
}

} // verus!
