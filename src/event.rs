//! Events of one issue as the tracker reports them.
use vstd::prelude::*;

verus! {

/// What happened to an issue. Kinds that never change a count are `Other`.
pub enum IssueEventKind {
    Labeled { label: String },
    Unlabeled { label: String },
    Closed,
    Reopened,
    Other,
}

/// One event of an issue, stamped with the nanoseconds since the Unix epoch
/// at which it happened.
pub struct IssueEvent {
    pub created_at: i64,
    pub kind: IssueEventKind,
}

/// An issue of a repository's list, as the timeline needs it: its number,
/// its creation and last modification times, and whether it is a pull
/// request.
pub struct IssueRecord {
    pub number: u32,
    pub created_at: i64,
    pub updated_at: i64,
    pub pull_request: bool,
}

/// The events of `s` come in non-decreasing order of time.
pub open spec fn time_ordered(s: Seq<IssueEvent>) -> bool {
    forall|i: int, j: int| 0 <= i <= j < s.len() ==> s[i].created_at <= s[j].created_at
}

/// Where an event at time `t` goes into `a` to keep it in order of time:
/// after every event at `t` or earlier that ends `a`.
pub open spec fn insert_pos(a: Seq<IssueEvent>, t: i64) -> int
    decreases a.len(),
{
    if a.len() == 0 || a.last().created_at <= t {
        a.len() as int
    } else {
        insert_pos(a.drop_last(), t)
    }
}

/// `a` with `e` put in at its place in order of time, after the events of
/// the same time.
pub open spec fn insert_in_order(a: Seq<IssueEvent>, e: IssueEvent) -> Seq<IssueEvent> {
    a.insert(insert_pos(a, e.created_at), e)
}

/// The events of `s` in order of time; events of the same time keep the
/// order that they have in `s` (a stable sort).
pub open spec fn time_sorted(s: Seq<IssueEvent>) -> Seq<IssueEvent>
    decreases s.len(),
{
    if s.len() == 0 {
        s
    } else {
        insert_in_order(time_sorted(s.drop_last()), s.last())
    }
}

proof fn lemma_insert_pos(a: Seq<IssueEvent>, t: i64)
    ensures
        0 <= insert_pos(a, t) <= a.len(),
        forall|k: int| insert_pos(a, t) <= k < a.len() ==> #[trigger] a[k].created_at > t,
        insert_pos(a, t) > 0 ==> a[insert_pos(a, t) - 1].created_at <= t,
    decreases a.len(),
{
    if a.len() > 0 && a.last().created_at > t {
        let pre = a.drop_last();
        lemma_insert_pos(pre, t);
        assert forall|k: int| insert_pos(a, t) <= k < a.len() implies #[trigger] a[k].created_at > t by {
            if k < pre.len() {
                assert(a[k] == pre[k]);
            }
        }
    }
}

proof fn lemma_insert_in_order_same(a: Seq<IssueEvent>, e: IssueEvent)
    ensures
        insert_in_order(a, e).to_multiset() == a.to_multiset().insert(e),
{
    broadcast use vstd::seq_lib::group_to_multiset_ensures;
    let p = insert_pos(a, e.created_at);
    let x = insert_in_order(a, e);
    lemma_insert_pos(a, e.created_at);
    a.insert_ensures(p, e);
    assert(x.remove(p) =~= a);
    assert(x[p] == e);
    assert(x.to_multiset().count(e) > 0) by {
        assert(x.contains(e));
    }
    assert(x.to_multiset() =~= a.to_multiset().insert(e));
}

proof fn lemma_insert_in_order_ordered(a: Seq<IssueEvent>, e: IssueEvent)
    requires
        time_ordered(a),
    ensures
        time_ordered(insert_in_order(a, e)),
{
    let p = insert_pos(a, e.created_at);
    let x = insert_in_order(a, e);
    lemma_insert_pos(a, e.created_at);
    a.insert_ensures(p, e);
    assert forall|i: int, j: int| 0 <= i <= j < x.len() implies x[i].created_at <= x[j].created_at by {
        if i < p && j < p {
            assert(x[i] == a[i] && x[j] == a[j]);
        } else if i < p && j == p {
            assert(x[i] == a[i]);
            assert(a[i].created_at <= a[p - 1].created_at);
        } else if i < p {
            assert(x[i] == a[i] && x[j] == a[j - 1]);
        } else if i == p && j > p {
            assert(x[j] == a[j - 1]);
        } else if i > p {
            assert(x[i] == a[i - 1] && x[j] == a[j - 1]);
        }
    }
}

/// The stable sort by time gives the same events, in order of time.
pub proof fn lemma_time_sorted(s: Seq<IssueEvent>)
    ensures
        time_ordered(time_sorted(s)),
        time_sorted(s).to_multiset() == s.to_multiset(),
    decreases s.len(),
{
    broadcast use vstd::seq_lib::group_to_multiset_ensures;
    if s.len() > 0 {
        lemma_time_sorted(s.drop_last());
        lemma_insert_in_order_same(time_sorted(s.drop_last()), s.last());
        lemma_insert_in_order_ordered(time_sorted(s.drop_last()), s.last());
        assert(s.drop_last().push(s.last()) =~= s);
    }
}

/// Events already in order of time are left as they are.
pub proof fn lemma_time_sorted_keeps_ordered(s: Seq<IssueEvent>)
    requires
        time_ordered(s),
    ensures
        time_sorted(s) == s,
    decreases s.len(),
{
    if s.len() > 0 {
        let pre = s.drop_last();
        assert(time_ordered(pre));
        lemma_time_sorted_keeps_ordered(pre);
        assert(insert_pos(pre, s.last().created_at) == pre.len());
        assert(pre.insert(pre.len() as int, s.last()) =~= s);
    }
}

/// Sorts `events` by time, keeping events of the same time in the order in
/// which they come.
pub fn sort_by_time(events: Vec<IssueEvent>) -> (r: Vec<IssueEvent>)
    ensures
        r@ == time_sorted(events@),
{
    let ghost s = events@;
    let n = events.len();
    let mut input = events;
    let mut out: Vec<IssueEvent> = Vec::new();
    let mut i: usize = 0;
    assert(s.subrange(0, 0) =~= Seq::<IssueEvent>::empty());
    assert(s.subrange(0, n as int) =~= s);
    while i < n
        invariant
            n == s.len(),
            i <= n,
            input@ == s.subrange(i as int, n as int),
            out@ == time_sorted(s.subrange(0, i as int)),
        decreases n - i,
    {
        assert(input@.len() > 0);
        let e = input.remove(0);
        assert(e == s[i as int]);
        let t = e.created_at;
        let mut j = out.len();
        assert(out@.subrange(0, j as int) =~= out@);
        while j > 0 && out[j - 1].created_at > t
            invariant
                j <= out@.len(),
                insert_pos(out@, t) == insert_pos(out@.subrange(0, j as int), t),
            decreases j,
        {
            assert(out@.subrange(0, j as int).drop_last() =~= out@.subrange(0, j - 1));
            j = j - 1;
        }
        assert(insert_pos(out@, t) == j as int);
        assert(s.subrange(0, i + 1).drop_last() =~= s.subrange(0, i as int));
        out.insert(j, e);
        i = i + 1;
        assert(input@ =~= s.subrange(i as int, n as int));
    }
    assert(s.subrange(0, n as int) =~= s);
    out
}

} // verus!
