//! The timeline builder: per-issue replay into a time-keyed log of count
//! changes, and the replay of that log into a sequence of data points.
use std::collections::BTreeMap;
use vstd::prelude::*;
use vstd::std_specs::cmp::OrdSpec;
use crate::event::{IssueEvent, IssueEventKind};
use crate::labels::{LabelTable, canonical, LabelPairs};

verus! {

broadcast use vstd::laws_cmp::group_laws_cmp;

/// A change of the counts, as one issue's replay emits it.
pub enum GlobalEvent {
    IssueOpened(Vec<String>),
    IssueClosed(Vec<String>),
    PullRequestOpened(Vec<String>),
    PullRequestClosed(Vec<String>),
    IssueLabeled(String),
    IssueUnlabeled(String),
    PullRequestLabeled(String),
    PullRequestUnlabeled(String),
}

/// What a [`GlobalEvent`] does to the counts: whether it concerns pull
/// requests, whether it moves the open count, its direction, and the labels
/// whose counts it moves.
pub struct Effect {
    pub pull_request: bool,
    pub moves_open: bool,
    pub up: bool,
    pub labels: Seq<Seq<char>>,
}

/// The names held in `v`.
pub open spec fn names(v: Seq<String>) -> Seq<Seq<char>> {
    v.map_values(|s: String| s@)
}

/// An opening or closing carrying the labels held at that moment.
pub open spec fn snapshot_effect(pr: bool, up: bool, held: Seq<Seq<char>>) -> Effect {
    Effect { pull_request: pr, moves_open: true, up, labels: held }
}

/// A label added to or taken from an open issue.
pub open spec fn label_effect(pr: bool, up: bool, l: Seq<char>) -> Effect {
    Effect { pull_request: pr, moves_open: false, up, labels: seq![l] }
}

impl View for GlobalEvent {
    type V = Effect;

    open spec fn view(&self) -> Effect {
        match self {
            GlobalEvent::IssueOpened(h) => snapshot_effect(false, true, names(h@)),
            GlobalEvent::IssueClosed(h) => snapshot_effect(false, false, names(h@)),
            GlobalEvent::PullRequestOpened(h) => snapshot_effect(true, true, names(h@)),
            GlobalEvent::PullRequestClosed(h) => snapshot_effect(true, false, names(h@)),
            GlobalEvent::IssueLabeled(l) => label_effect(false, true, l@),
            GlobalEvent::IssueUnlabeled(l) => label_effect(false, false, l@),
            GlobalEvent::PullRequestLabeled(l) => label_effect(true, true, l@),
            GlobalEvent::PullRequestUnlabeled(l) => label_effect(true, false, l@),
        }
    }
}

/// The effects of a bucket of events, in order.
pub open spec fn effects(v: Seq<GlobalEvent>) -> Seq<Effect> {
    v.map_values(|e: GlobalEvent| e@)
}

/// Events of all issues keyed by time; events at one time keep the order in
/// which they were added.
pub struct EventLog {
    pub by_time: BTreeMap<i64, Vec<GlobalEvent>>,
}

/// The log model: for each time, the effects recorded there, in order.
pub type LogView = Map<i64, Seq<Effect>>;

impl View for EventLog {
    type V = LogView;

    open spec fn view(&self) -> LogView {
        self.by_time@.map_values(|v: Vec<GlobalEvent>| effects(v@))
    }
}

/// `m` with `e` added after the effects already recorded at time `t`.
pub open spec fn log_push(m: LogView, t: i64, e: Effect) -> LogView {
    m.insert(t, (if m.contains_key(t) { m[t] } else { Seq::empty() }).push(e))
}

impl EventLog {
    /// An empty log.
    pub fn new() -> (r: EventLog)
        ensures
            r@ == Map::<i64, Seq<Effect>>::empty(),
    {
        let r = EventLog { by_time: BTreeMap::new() };
        assert(r@ =~= Map::<i64, Seq<Effect>>::empty());
        r
    }

    /// Records `e` at time `at`, after the events already recorded there.
    pub fn push(&mut self, at: i64, e: GlobalEvent)
        ensures
            final(self)@ == log_push(old(self)@, at, e@),
    {
        let mut bucket = match self.by_time.remove(&at) {
            Some(v) => v,
            None => Vec::new(),
        };
        let ghost before = bucket@;
        assert(effects(before) == (if old(self)@.contains_key(at) { old(self)@[at] } else { Seq::<Effect>::empty() })) by {
            if !old(self).by_time@.contains_key(at) {
                assert(effects(before) =~= Seq::<Effect>::empty());
            }
        }
        bucket.push(e);
        assert(effects(bucket@) =~= effects(before).push(e@));
        self.by_time.insert(at, bucket);
        assert(self@ =~= log_push(old(self)@, at, e@));
    }
}

/// Where an issue stands during its replay: open or not, and the labels it
/// holds, in the order in which they were added.
pub struct IssueState {
    pub open: bool,
    pub held: Seq<Seq<char>>,
}

/// An issue at its creation: open, with no label.
pub open spec fn created_state() -> IssueState {
    IssueState { open: true, held: Seq::empty() }
}

/// `held` without the label `l`, which it holds.
pub open spec fn held_drop(held: Seq<Seq<char>>, l: Seq<char>) -> Seq<Seq<char>> {
    held.remove(held.index_of(l))
}

/// One event of the replay of an issue; `None` where the event takes away a
/// label that the issue does not hold.
pub open spec fn issue_step(
    pr: bool,
    t: LabelPairs,
    st: IssueState,
    m: LogView,
    ev: IssueEvent,
) -> Option<(IssueState, LogView)> {
    match ev.kind {
        IssueEventKind::Labeled { label } => {
            let l = canonical(t, label@);
            if st.held.contains(l) {
                Some((st, m))
            } else {
                Some(
                    (
                        IssueState { open: st.open, held: st.held.push(l) },
                        if st.open {
                            log_push(m, ev.created_at, label_effect(pr, true, l))
                        } else {
                            m
                        },
                    ),
                )
            }
        },
        IssueEventKind::Unlabeled { label } => {
            let l = canonical(t, label@);
            if !st.held.contains(l) {
                None
            } else {
                Some(
                    (
                        IssueState { open: st.open, held: held_drop(st.held, l) },
                        if st.open {
                            log_push(m, ev.created_at, label_effect(pr, false, l))
                        } else {
                            m
                        },
                    ),
                )
            }
        },
        IssueEventKind::Closed => Some(
            (
                IssueState { open: false, held: st.held },
                log_push(m, ev.created_at, snapshot_effect(pr, false, st.held)),
            ),
        ),
        IssueEventKind::Reopened => Some(
            (
                IssueState { open: true, held: st.held },
                log_push(m, ev.created_at, snapshot_effect(pr, true, st.held)),
            ),
        ),
        IssueEventKind::Other => Some((st, m)),
    }
}

/// The replay of the events `evs` in order from `st` and `m`.
pub open spec fn replay_events(
    pr: bool,
    t: LabelPairs,
    evs: Seq<IssueEvent>,
    st: IssueState,
    m: LogView,
) -> Option<(IssueState, LogView)>
    decreases evs.len(),
{
    if evs.len() == 0 {
        Some((st, m))
    } else {
        match replay_events(pr, t, evs.drop_last(), st, m) {
            Some(p) => issue_step(pr, t, p.0, p.1, evs.last()),
            None => None,
        }
    }
}

/// The log after the replay of one issue created at `created` with the
/// events `evs`: its opening at `created`, then each of its events.
pub open spec fn replay_issue_spec(
    pr: bool,
    created: i64,
    t: LabelPairs,
    evs: Seq<IssueEvent>,
    m: LogView,
) -> Option<LogView> {
    match replay_events(
        pr,
        t,
        evs,
        created_state(),
        log_push(m, created, snapshot_effect(pr, true, Seq::empty())),
    ) {
        Some(p) => Some(p.1),
        None => None,
    }
}

/// Once the replay of a prefix has failed, the replay of the whole fails.
pub proof fn lemma_replay_stays_failed(
    pr: bool,
    t: LabelPairs,
    evs: Seq<IssueEvent>,
    k: int,
    st: IssueState,
    m: LogView,
)
    requires
        0 <= k <= evs.len(),
        replay_events(pr, t, evs.subrange(0, k), st, m) is None,
    ensures
        replay_events(pr, t, evs, st, m) is None,
    decreases evs.len() - k,
{
    if k < evs.len() {
        assert(evs.subrange(0, k + 1).drop_last() =~= evs.subrange(0, k));
        lemma_replay_stays_failed(pr, t, evs, k + 1, st, m);
    } else {
        assert(evs.subrange(0, k) =~= evs);
    }
}

/// The canonical name of the label that `ev` takes away, if it takes one.
pub open spec fn removed_name(t: LabelPairs, ev: IssueEvent) -> Option<Seq<char>> {
    match ev.kind {
        IssueEventKind::Unlabeled { label } => Some(canonical(t, label@)),
        _ => None,
    }
}

/// The `k`th event of `evs` is the first to take away a label that the issue
/// does not hold at that moment.
pub open spec fn first_absent_at(t: LabelPairs, evs: Seq<IssueEvent>, k: int) -> bool {
    &&& takes_absent(t, held_after(t, Seq::empty(), evs.subrange(0, k)), evs[k])
    &&& forall|j: int| 0 <= j < k ==> !takes_absent(t, held_after(t, Seq::empty(), evs.subrange(0, j)), #[trigger] evs[j])
}

/// An issue's history is inconsistent with itself.
pub enum ReplayError {
    /// A label was taken away that the issue did not hold at that moment.
    RemovedNonexistentLabel { label: String },
}

fn find_name(h: &Vec<String>, l: &String) -> (r: Option<usize>)
    ensures
        match r {
            Some(i) => i < h@.len() && h@[i as int]@ == l@,
            None => !names(h@).contains(l@),
        },
{
    let mut i: usize = 0;
    while i < h.len()
        invariant
            i <= h@.len(),
            forall|j: int| 0 <= j < i ==> h@[j]@ != l@,
        decreases h@.len() - i,
    {
        if h[i] == *l {
            return Some(i);
        }
        i = i + 1;
    }
    None
}

fn copy_names(h: &Vec<String>) -> (r: Vec<String>)
    ensures
        names(r@) == names(h@),
{
    let mut r: Vec<String> = Vec::new();
    let mut i: usize = 0;
    while i < h.len()
        invariant
            i <= h@.len(),
            r@.len() == i,
            forall|k: int| 0 <= k < i ==> #[trigger] r@[k]@ == h@[k]@,
        decreases h@.len() - i,
    {
        let c = h[i].clone();
        r.push(c);
        i = i + 1;
    }
    assert(names(r@) =~= names(h@));
    r
}

fn snapshot_event(pr: bool, up: bool, h: Vec<String>) -> (r: GlobalEvent)
    ensures
        r@ == snapshot_effect(pr, up, names(h@)),
{
    if pr {
        if up { GlobalEvent::PullRequestOpened(h) } else { GlobalEvent::PullRequestClosed(h) }
    } else {
        if up { GlobalEvent::IssueOpened(h) } else { GlobalEvent::IssueClosed(h) }
    }
}

fn label_event(pr: bool, up: bool, l: String) -> (r: GlobalEvent)
    ensures
        r@ == label_effect(pr, up, l@),
{
    if pr {
        if up { GlobalEvent::PullRequestLabeled(l) } else { GlobalEvent::PullRequestUnlabeled(l) }
    } else {
        if up { GlobalEvent::IssueLabeled(l) } else { GlobalEvent::IssueUnlabeled(l) }
    }
}

/// Replays the history of one issue (or pull request, where `pull_request`)
/// into `log`: its opening at `created_at`, then its events in the order
/// given, with each label normalised by `table`.
pub fn replay_issue(
    log: &mut EventLog,
    pull_request: bool,
    created_at: i64,
    events: &Vec<IssueEvent>,
    table: &LabelTable,
) -> (r: Result<(), ReplayError>)
    ensures
        match replay_issue_spec(pull_request, created_at, table@, events@, old(log)@) {
            Some(m) => r is Ok && final(log)@ == m,
            None => r is Err,
        },
        r matches Err(ReplayError::RemovedNonexistentLabel { label }) ==> exists|k: int|
            0 <= k < events@.len() && first_absent_at(table@, events@, k) && removed_name(table@, #[trigger] events@[k])
                == Some(label@),
{
    log.push(created_at, snapshot_event(pull_request, true, Vec::new()));
    assert(names(Seq::<String>::empty()) =~= Seq::<Seq<char>>::empty());
    let ghost m0 = log@;
    let mut open = true;
    let mut held: Vec<String> = Vec::new();
    assert(names(held@) =~= Seq::<Seq<char>>::empty());
    let n = events.len();
    let mut i: usize = 0;
    while i < n
        invariant
            n == events@.len(),
            i <= n,
            names(held@).no_duplicates(),
            m0 == log_push(old(log)@, created_at, snapshot_effect(pull_request, true, Seq::empty())),
            replay_events(pull_request, table@, events@.subrange(0, i as int), created_state(), m0)
                == Some((IssueState { open, held: names(held@) }, log@)),
        decreases n - i,
    {
        let ev = &events[i];
        assert(events@.subrange(0, i + 1).drop_last() =~= events@.subrange(0, i as int));
        assert(events@.subrange(0, i + 1).last() == events@[i as int]);
        let ghost h0 = names(held@);
        let ghost st0 = IssueState { open, held: h0 };
        let ghost mb = log@;
        let ghost step = issue_step(pull_request, table@, st0, mb, events@[i as int]);
        match &ev.kind {
            IssueEventKind::Labeled { label } => {
                let l = table.normalize(label);
                match find_name(&held, &l) {
                    Some(j) => {
                        assert(h0[j as int] == l@);
                        assert(step == Some((IssueState { open, held: names(held@) }, log@)));
                    },
                    None => {
                        if open {
                            log.push(ev.created_at, label_event(pull_request, true, l.clone()));
                        }
                        held.push(l);
                        assert(names(held@) =~= h0.push(l@));
                        assert(step == Some((IssueState { open, held: names(held@) }, log@)));
                    },
                }
            },
            IssueEventKind::Unlabeled { label } => {
                let l = table.normalize(label);
                match find_name(&held, &l) {
                    None => {
                        assert(step is None);
                        proof {
                            let pre = events@.subrange(0, i as int);
                            lemma_label_balance(pull_request, table@, pre, created_state(), m0);
                            assert forall|j: int| 0 <= j < i implies !takes_absent(table@, held_after(table@, Seq::empty(), events@.subrange(0, j)), #[trigger] events@[j]) by {
                                assert(pre.subrange(0, j) =~= events@.subrange(0, j));
                                assert(pre[j] == events@[j]);
                            }
                            assert(first_absent_at(table@, events@, i as int));
                            lemma_replay_stays_failed(pull_request, table@, events@, i + 1, created_state(), m0);
                        }
                        return Err(ReplayError::RemovedNonexistentLabel { label: l });
                    },
                    Some(j) => {
                        assert(h0[j as int] == l@);
                        assert(h0.contains(l@));
                        assert(h0.index_of(l@) == j as int);
                        held.remove(j);
                        assert(names(held@) =~= h0.remove(j as int));
                        assert(names(held@).no_duplicates()) by {
                            let nh = names(held@);
                            assert forall|a: int, b: int| 0 <= a < nh.len() && 0 <= b < nh.len() && a != b
                                implies nh[a] != nh[b] by {
                                let a2 = if a < j { a } else { a + 1 };
                                let b2 = if b < j { b } else { b + 1 };
                                assert(nh[a] == h0[a2]);
                                assert(nh[b] == h0[b2]);
                            }
                        }
                        if open {
                            log.push(ev.created_at, label_event(pull_request, false, l));
                        }
                        assert(step == Some((IssueState { open, held: names(held@) }, log@)));
                    },
                }
            },
            IssueEventKind::Closed => {
                open = false;
                let snap = copy_names(&held);
                log.push(ev.created_at, snapshot_event(pull_request, false, snap));
                assert(step == Some((IssueState { open, held: names(held@) }, log@)));
            },
            IssueEventKind::Reopened => {
                open = true;
                let snap = copy_names(&held);
                log.push(ev.created_at, snapshot_event(pull_request, true, snap));
            },
            IssueEventKind::Other => {},
        }
        assert(step == Some((IssueState { open, held: names(held@) }, log@)));
        i = i + 1;
    }
    assert(events@.subrange(0, n as int) =~= events@);
    Ok(())
}

/// Counts per label, in the order in which each label was first counted.
pub type Counts = Seq<(Seq<char>, i64)>;

/// `c` moved by one, up or down, wrapping at the ends of `i64`.
pub open spec fn nudge(c: i64, up: bool) -> i64 {
    if up {
        vstd::wrapping::i64_specs::wrapping_add(c, 1i64)
    } else {
        vstd::wrapping::i64_specs::wrapping_add(c, -1i64)
    }
}

/// No label is counted twice in `c`.
pub open spec fn keys_unique(c: Counts) -> bool {
    forall|i: int, j: int| 0 <= i < j < c.len() ==> c[i].0 != c[j].0
}

/// `c` holds a count for `l`.
pub open spec fn has_key(c: Counts, l: Seq<char>) -> bool {
    exists|i: int| 0 <= i < c.len() && c[i].0 == l
}

/// `c` with the count of `l` moved by one; a label not counted yet starts
/// from zero and goes at the end.
pub open spec fn bump(c: Counts, l: Seq<char>, up: bool) -> Counts {
    if has_key(c, l) {
        let i = choose|i: int| 0 <= i < c.len() && c[i].0 == l;
        c.update(i, (l, nudge(c[i].1, up)))
    } else {
        c.push((l, nudge(0, up)))
    }
}

/// `c` with the count of each label of `ls` moved by one, in order.
pub open spec fn bump_all(c: Counts, ls: Seq<Seq<char>>, up: bool) -> Counts
    decreases ls.len(),
{
    if ls.len() == 0 {
        c
    } else {
        bump(bump_all(c, ls.drop_last(), up), ls.last(), up)
    }
}

/// The running counts of the timeline.
pub struct TallyView {
    pub open_issues: i64,
    pub open_prs: i64,
    pub issue_labels: Counts,
    pub pr_labels: Counts,
}

/// No open item and no label counted.
pub open spec fn empty_tally() -> TallyView {
    TallyView { open_issues: 0, open_prs: 0, issue_labels: Seq::empty(), pr_labels: Seq::empty() }
}

/// The counts after the effect `e`.
pub open spec fn apply(t: TallyView, e: Effect) -> TallyView {
    if e.pull_request {
        TallyView {
            open_issues: t.open_issues,
            open_prs: if e.moves_open { nudge(t.open_prs, e.up) } else { t.open_prs },
            issue_labels: t.issue_labels,
            pr_labels: bump_all(t.pr_labels, e.labels, e.up),
        }
    } else {
        TallyView {
            open_issues: if e.moves_open { nudge(t.open_issues, e.up) } else { t.open_issues },
            open_prs: t.open_prs,
            issue_labels: bump_all(t.issue_labels, e.labels, e.up),
            pr_labels: t.pr_labels,
        }
    }
}

/// The counts after the effects `es`, in order.
pub open spec fn apply_all(t: TallyView, es: Seq<Effect>) -> TallyView
    decreases es.len(),
{
    if es.len() == 0 {
        t
    } else {
        apply(apply_all(t, es.drop_last()), es.last())
    }
}

/// A sample of the timeline: a time and the counts at it.
pub struct PointView {
    pub at: i64,
    pub tally: TallyView,
}

/// One bucket of the log: a time and the effects recorded at it.
pub type Bucket = (i64, Seq<Effect>);

/// Two samples per bucket, from the counts `t` on: the counts before the
/// bucket's effects and the counts after them.
pub open spec fn points(bs: Seq<Bucket>, t: TallyView) -> Seq<PointView>
    decreases bs.len(),
{
    if bs.len() == 0 {
        Seq::empty()
    } else {
        let after = apply_all(t, bs[0].1);
        seq![PointView { at: bs[0].0, tally: t }, PointView { at: bs[0].0, tally: after }]
            + points(bs.drop_first(), after)
    }
}

/// The counts after all the buckets `bs`, from `t` on.
pub open spec fn end_tally(bs: Seq<Bucket>, t: TallyView) -> TallyView
    decreases bs.len(),
{
    if bs.len() == 0 {
        t
    } else {
        end_tally(bs.drop_first(), apply_all(t, bs[0].1))
    }
}

/// `s` lists the buckets of `m` in increasing order of time.
pub open spec fn is_listing(m: LogView, s: Seq<Bucket>) -> bool {
    &&& forall|i: int, j: int| 0 <= i < j < s.len() ==> s[i].0 < s[j].0
    &&& forall|i: int| 0 <= i < s.len() ==> m.contains_key(#[trigger] s[i].0) && m[s[i].0] == s[i].1
    &&& forall|k: i64| m.contains_key(k) ==> exists|i: int| 0 <= i < s.len() && s[i].0 == k
}

/// The buckets of `m` in increasing order of time.
pub open spec fn listing(m: LogView) -> Seq<Bucket> {
    choose|s: Seq<Bucket>| is_listing(m, s)
}

/// The timeline of the log `m`: two samples per time at which something
/// happened, then the final counts at `now`.
pub open spec fn timeline_spec(m: LogView, now: i64) -> Seq<PointView> {
    points(listing(m), empty_tally()) + seq![
        PointView { at: now, tally: end_tally(listing(m), empty_tally()) },
    ]
}

proof fn lemma_listing_prefix(m: LogView, s1: Seq<Bucket>, s2: Seq<Bucket>, n: int)
    requires
        is_listing(m, s1),
        is_listing(m, s2),
        0 <= n <= s1.len(),
        n <= s2.len(),
    ensures
        forall|i: int| 0 <= i < n ==> s1[i].0 == s2[i].0,
    decreases n,
{
    if n > 0 {
        lemma_listing_prefix(m, s1, s2, n - 1);
        let a = s1[n - 1].0;
        let b = s2[n - 1].0;
        assert(m.contains_key(a));
        assert(m.contains_key(b));
        let j = choose|j: int| 0 <= j < s2.len() && s2[j].0 == a;
        let k = choose|k: int| 0 <= k < s1.len() && s1[k].0 == b;
        if j < n - 1 {
            assert(s1[j].0 == s2[j].0);
        }
        if k < n - 1 {
            assert(s1[k].0 == s2[k].0);
        }
        if j > n - 1 {
            assert(s2[n - 1].0 < s2[j].0);
        }
        if k > n - 1 {
            assert(s1[n - 1].0 < s1[k].0);
        }
    }
}

/// A log has one listing only.
pub proof fn lemma_listing_unique(m: LogView, s1: Seq<Bucket>, s2: Seq<Bucket>)
    requires
        is_listing(m, s1),
        is_listing(m, s2),
    ensures
        s1 == s2,
{
    let n = if s1.len() <= s2.len() { s1.len() as int } else { s2.len() as int };
    lemma_listing_prefix(m, s1, s2, n);
    if s1.len() > s2.len() {
        let a = s1[n].0;
        assert(m.contains_key(a));
        let j = choose|j: int| 0 <= j < s2.len() && s2[j].0 == a;
        assert(s1[j].0 == s2[j].0);
        assert(s1[j].0 < s1[n].0);
    }
    if s2.len() > s1.len() {
        let a = s2[n].0;
        assert(m.contains_key(a));
        let j = choose|j: int| 0 <= j < s1.len() && s1[j].0 == a;
        assert(s1[j].0 == s2[j].0);
        assert(s2[j].0 < s2[n].0);
    }
    assert forall|i: int| 0 <= i < s1.len() implies s1[i] == s2[i] by {
        assert(m[s1[i].0] == s1[i].1);
        assert(m[s2[i].0] == s2[i].1);
    }
    assert(s1 =~= s2);
}

/// The counts of `v`, with each name as its characters.
pub open spec fn counts_view(v: Seq<(String, i64)>) -> Counts {
    v.map_values(|p: (String, i64)| (p.0@, p.1))
}

/// A sample of the timeline: open issues, open pull requests, and the count
/// of open issues and of open pull requests with each label, at `at`.
pub struct DataPoint {
    pub at: i64,
    pub open_issues: i64,
    pub open_prs: i64,
    pub issue_labels: Vec<(String, i64)>,
    pub pr_labels: Vec<(String, i64)>,
}

impl View for DataPoint {
    type V = PointView;

    open spec fn view(&self) -> PointView {
        PointView {
            at: self.at,
            tally: TallyView {
                open_issues: self.open_issues,
                open_prs: self.open_prs,
                issue_labels: counts_view(self.issue_labels@),
                pr_labels: counts_view(self.pr_labels@),
            },
        }
    }
}

/// The samples of `v`.
pub open spec fn point_views(v: Seq<DataPoint>) -> Seq<PointView> {
    v.map_values(|p: DataPoint| p@)
}

fn nudged(c: i64, up: bool) -> (r: i64)
    ensures
        r == nudge(c, up),
{
    if up {
        c.wrapping_add(1)
    } else {
        c.wrapping_add(-1)
    }
}

fn bump_counts(c: &mut Vec<(String, i64)>, l: &String, up: bool)
    requires
        keys_unique(counts_view(old(c)@)),
    ensures
        counts_view(final(c)@) == bump(counts_view(old(c)@), l@, up),
        keys_unique(counts_view(final(c)@)),
{
    let ghost cv = counts_view(c@);
    let mut i: usize = 0;
    while i < c.len()
        invariant
            i <= c@.len(),
            c@ == old(c)@,
            cv == counts_view(c@),
            keys_unique(cv),
            forall|j: int| 0 <= j < i ==> cv[j].0 != l@,
        decreases c@.len() - i,
    {
        if c[i].0 == *l {
            let v = c[i].1;
            let name = l.clone();
            c.set(i, (name, nudged(v, up)));
            assert(cv[i as int].0 == l@);
            assert(has_key(cv, l@));
            let ghost k = choose|k: int| 0 <= k < cv.len() && cv[k].0 == l@;
            assert(k == i as int);
            assert(counts_view(c@) =~= cv.update(i as int, (l@, nudge(v, up))));
            return;
        }
        i = i + 1;
    }
    let name = l.clone();
    c.push((name, nudged(0, up)));
    assert(!has_key(cv, l@));
    assert(counts_view(c@) =~= cv.push((l@, nudge(0, up))));
}

fn bump_each(c: &mut Vec<(String, i64)>, ls: &Vec<String>, up: bool)
    requires
        keys_unique(counts_view(old(c)@)),
    ensures
        counts_view(final(c)@) == bump_all(counts_view(old(c)@), names(ls@), up),
        keys_unique(counts_view(final(c)@)),
{
    let mut i: usize = 0;
    while i < ls.len()
        invariant
            i <= ls@.len(),
            keys_unique(counts_view(c@)),
            counts_view(c@) == bump_all(counts_view(old(c)@), names(ls@).subrange(0, i as int), up),
        decreases ls@.len() - i,
    {
        assert(names(ls@).subrange(0, i + 1).drop_last() =~= names(ls@).subrange(0, i as int));
        bump_counts(c, &ls[i], up);
        i = i + 1;
    }
    assert(names(ls@).subrange(0, i as int) =~= names(ls@));
}

fn bump_one(c: &mut Vec<(String, i64)>, l: &String, up: bool)
    requires
        keys_unique(counts_view(old(c)@)),
    ensures
        counts_view(final(c)@) == bump_all(counts_view(old(c)@), seq![l@], up),
        keys_unique(counts_view(final(c)@)),
{
    let ghost cv = counts_view(c@);
    assert(seq![l@].drop_last() =~= Seq::<Seq<char>>::empty());
    assert(bump_all(cv, Seq::<Seq<char>>::empty(), up) == cv);
    assert(seq![l@].last() == l@);
    bump_counts(c, l, up);
}

fn copy_counts(c: &Vec<(String, i64)>) -> (r: Vec<(String, i64)>)
    ensures
        counts_view(r@) == counts_view(c@),
{
    let mut r: Vec<(String, i64)> = Vec::new();
    let mut i: usize = 0;
    while i < c.len()
        invariant
            i <= c@.len(),
            r@.len() == i,
            forall|k: int| 0 <= k < i ==> #[trigger] r@[k].0@ == c@[k].0@ && r@[k].1 == c@[k].1,
        decreases c@.len() - i,
    {
        let name = c[i].0.clone();
        r.push((name, c[i].1));
        i = i + 1;
    }
    assert(counts_view(r@) =~= counts_view(c@));
    r
}

/// The running counts of the timeline builder.
pub struct Tally {
    pub open_issues: i64,
    pub open_prs: i64,
    pub issue_labels: Vec<(String, i64)>,
    pub pr_labels: Vec<(String, i64)>,
}

impl View for Tally {
    type V = TallyView;

    open spec fn view(&self) -> TallyView {
        TallyView {
            open_issues: self.open_issues,
            open_prs: self.open_prs,
            issue_labels: counts_view(self.issue_labels@),
            pr_labels: counts_view(self.pr_labels@),
        }
    }
}

impl Tally {
    /// Each label is counted once at most.
    pub open spec fn wf(&self) -> bool {
        keys_unique(self@.issue_labels) && keys_unique(self@.pr_labels)
    }

    /// No open item, no label counted.
    pub fn new() -> (r: Tally)
        ensures
            r@ == empty_tally(),
            r.wf(),
    {
        let r = Tally { open_issues: 0, open_prs: 0, issue_labels: Vec::new(), pr_labels: Vec::new() };
        assert(counts_view(r.issue_labels@) =~= Seq::<(Seq<char>, i64)>::empty());
        assert(counts_view(r.pr_labels@) =~= Seq::<(Seq<char>, i64)>::empty());
        r
    }

    /// Applies the change `e` to the counts.
    pub fn apply(&mut self, e: &GlobalEvent)
        requires
            old(self).wf(),
        ensures
            final(self).wf(),
            final(self)@ == apply(old(self)@, e@),
    {
        match e {
            GlobalEvent::IssueOpened(ls) => {
                self.open_issues = nudged(self.open_issues, true);
                bump_each(&mut self.issue_labels, ls, true);
            },
            GlobalEvent::IssueClosed(ls) => {
                self.open_issues = nudged(self.open_issues, false);
                bump_each(&mut self.issue_labels, ls, false);
            },
            GlobalEvent::PullRequestOpened(ls) => {
                self.open_prs = nudged(self.open_prs, true);
                bump_each(&mut self.pr_labels, ls, true);
            },
            GlobalEvent::PullRequestClosed(ls) => {
                self.open_prs = nudged(self.open_prs, false);
                bump_each(&mut self.pr_labels, ls, false);
            },
            GlobalEvent::IssueLabeled(l) => bump_one(&mut self.issue_labels, l, true),
            GlobalEvent::IssueUnlabeled(l) => bump_one(&mut self.issue_labels, l, false),
            GlobalEvent::PullRequestLabeled(l) => bump_one(&mut self.pr_labels, l, true),
            GlobalEvent::PullRequestUnlabeled(l) => bump_one(&mut self.pr_labels, l, false),
        }
    }

    /// A sample of the counts at `at`.
    pub fn sample(&self, at: i64) -> (r: DataPoint)
        ensures
            r@ == (PointView { at, tally: self@ }),
    {
        DataPoint {
            at,
            open_issues: self.open_issues,
            open_prs: self.open_prs,
            issue_labels: copy_counts(&self.issue_labels),
            pr_labels: copy_counts(&self.pr_labels),
        }
    }
}

/// The buckets of a map iteration, as times and effects.
pub open spec fn buckets_of(s: Seq<(&i64, &Vec<GlobalEvent>)>) -> Seq<Bucket> {
    s.map_values(|kv: (&i64, &Vec<GlobalEvent>)| (*kv.0, effects(kv.1@)))
}

impl EventLog {
    /// The timeline of the log: for each time at which events were recorded,
    /// in increasing order, a sample of the counts before that time's events
    /// and one after them; then a last sample of the final counts at `now`.
    pub fn timeline(&self, now: i64) -> (r: Vec<DataPoint>)
        ensures
            point_views(r@) == timeline_spec(self@, now),
            is_listing(self@, listing(self@)),
    {
        broadcast use vstd::std_specs::btree::group_btree_axioms;
        let mut out: Vec<DataPoint> = Vec::new();
        let mut t = Tally::new();
        let iter = self.by_time.iter();
        let ghost s = vstd::std_specs::iter::IteratorSpec::remaining(&iter);
        let ghost all = buckets_of(s);
        proof {
            assert(is_listing(self@, all)) by {
                let keys = s.map_values(|kv: (&i64, &Vec<GlobalEvent>)| *kv.0);
                assert(vstd::laws_cmp::obeys_cmp::<i64>());
                vstd::std_specs::btree::axiom_increasing_seq_meaning::<i64>(keys);
                assert(vstd::std_specs::btree::increasing_seq(keys));
                assert forall|i: int, j: int| 0 <= i < j < all.len() implies all[i].0 < all[j].0 by {
                    assert(keys[i] == all[i].0);
                    assert(keys[j] == all[j].0);
                    assert(keys[i].cmp_spec(&keys[j]) is Less);
                }
                assert forall|k: i64| self@.contains_key(k) implies exists|i: int| 0 <= i < all.len() && all[i].0 == k by {
                    assert(self.by_time@.contains_key(k));
                    assert(s.contains((&k, &self.by_time@[k])));
                    let i = choose|i: int| 0 <= i < s.len() && s[i] == (&k, &self.by_time@[k]);
                    assert(all[i].0 == k);
                }
            }
            lemma_listing_unique(self@, all, listing(self@));
        }
        assert(point_views(out@) =~= Seq::<PointView>::empty());
        assert(all.subrange(0, all.len() as int) =~= all);
        for kv in it: iter
            invariant
                t.wf(),
                it.seq() == s,
                all == buckets_of(s),
                points(all, empty_tally()) == point_views(out@) + points(
                    all.subrange(it.index(), all.len() as int),
                    t@,
                ),
                end_tally(all, empty_tally()) == end_tally(
                    all.subrange(it.index(), all.len() as int),
                    t@,
                ),
        {
            let (at, evs) = kv;
            let ghost i = it.index();
            let ghost rest = all.subrange(i, all.len() as int);
            assert(rest[0] == (*at, effects(evs@)));
            assert(rest.drop_first() =~= all.subrange(i + 1, all.len() as int));
            let ghost t0 = t@;
            let ghost out0 = point_views(out@);
            out.push(t.sample(*at));
            let mut j: usize = 0;
            while j < evs.len()
                invariant
                    t.wf(),
                    j <= evs@.len(),
                    t@ == apply_all(t0, effects(evs@).subrange(0, j as int)),
                decreases evs@.len() - j,
            {
                assert(effects(evs@).subrange(0, j + 1).drop_last() =~= effects(evs@).subrange(0, j as int));
                t.apply(&evs[j]);
                j = j + 1;
            }
            assert(effects(evs@).subrange(0, j as int) =~= effects(evs@));
            out.push(t.sample(*at));
            assert(point_views(out@) =~= out0 + seq![
                PointView { at: *at, tally: t0 },
                PointView { at: *at, tally: t@ },
            ]);
        }
        assert(all.subrange(all.len() as int, all.len() as int) =~= Seq::<Bucket>::empty());
        let ghost out0 = point_views(out@);
        out.push(t.sample(now));
        assert(point_views(out@) =~= out0 + seq![PointView { at: now, tally: t@ }]);
        out
    }
}

/// The event takes away a label that `held` does not hold.
pub open spec fn takes_absent(t: LabelPairs, held: Seq<Seq<char>>, ev: IssueEvent) -> bool {
    match ev.kind {
        IssueEventKind::Unlabeled { label } => !held.contains(canonical(t, label@)),
        _ => false,
    }
}

/// The labels held after the event `ev`, from `held`.
pub open spec fn held_step(t: LabelPairs, held: Seq<Seq<char>>, ev: IssueEvent) -> Seq<Seq<char>> {
    match ev.kind {
        IssueEventKind::Labeled { label } => {
            let l = canonical(t, label@);
            if held.contains(l) { held } else { held.push(l) }
        },
        IssueEventKind::Unlabeled { label } => {
            let l = canonical(t, label@);
            if held.contains(l) { held_drop(held, l) } else { held }
        },
        _ => held,
    }
}

/// The labels held after the events `evs`, from `held`.
pub open spec fn held_after(t: LabelPairs, held: Seq<Seq<char>>, evs: Seq<IssueEvent>) -> Seq<Seq<char>>
    decreases evs.len(),
{
    if evs.len() == 0 {
        held
    } else {
        held_step(t, held_after(t, held, evs.drop_last()), evs.last())
    }
}

/// The replay of an issue's history fails exactly where one of its events
/// takes away a label that the issue does not hold at that moment; where it
/// succeeds, the labels held at its end are those that the history leaves.
pub proof fn lemma_label_balance(
    pr: bool,
    t: LabelPairs,
    evs: Seq<IssueEvent>,
    st: IssueState,
    m: LogView,
)
    ensures
        replay_events(pr, t, evs, st, m) is None <==> exists|k: int|
            0 <= k < evs.len() && takes_absent(t, held_after(t, st.held, evs.subrange(0, k)), #[trigger] evs[k]),
        replay_events(pr, t, evs, st, m) matches Some(p) ==> p.0.held == held_after(t, st.held, evs),
    decreases evs.len(),
{
    if evs.len() > 0 {
        let pre = evs.drop_last();
        let n = pre.len() as int;
        lemma_label_balance(pr, t, pre, st, m);
        assert forall|k: int| 0 <= k < n implies #[trigger] evs.subrange(0, k) == pre.subrange(0, k) && evs[k] == pre[k] by {
            assert(evs.subrange(0, k) =~= pre.subrange(0, k));
        }
        assert(evs.subrange(0, n) =~= pre);
        match replay_events(pr, t, pre, st, m) {
            None => {
                let k = choose|k: int| 0 <= k < n && takes_absent(t, held_after(t, st.held, pre.subrange(0, k)), #[trigger] pre[k]);
                assert(evs.subrange(0, k) == pre.subrange(0, k));
                assert(takes_absent(t, held_after(t, st.held, evs.subrange(0, k)), evs[k]));
            },
            Some(p) => {
                if replay_events(pr, t, evs, st, m) is None {
                    assert(takes_absent(t, held_after(t, st.held, evs.subrange(0, n)), evs[n]));
                } else {
                    assert forall|k: int| 0 <= k < evs.len() implies !takes_absent(t, held_after(t, st.held, evs.subrange(0, k)), #[trigger] evs[k]) by {
                        if k < n {
                            assert(evs.subrange(0, k) == pre.subrange(0, k));
                            assert(!takes_absent(t, held_after(t, st.held, pre.subrange(0, k)), pre[k]));
                        }
                    }
                }
            },
        }
    }
}

/// Two samples per bucket: the first holds the counts before the bucket's
/// effects, the second the counts after them, and nothing moves between
/// one bucket's second sample and the next bucket's first.
proof fn lemma_points_shape(bs: Seq<Bucket>, t: TallyView)
    ensures
        points(bs, t).len() == 2 * bs.len(),
        bs.len() > 0 ==> points(bs, t)[0].tally == t,
        forall|k: int| 0 <= k < bs.len() ==> {
            &&& (#[trigger] points(bs, t)[2 * k]).at == bs[k].0
            &&& points(bs, t)[2 * k + 1].at == bs[k].0
            &&& points(bs, t)[2 * k + 1].tally == apply_all(points(bs, t)[2 * k].tally, bs[k].1)
        },
        forall|k: int| 0 <= k && k + 1 < bs.len() ==> #[trigger] points(bs, t)[2 * k + 2].tally == points(bs, t)[2 * k + 1].tally,
        end_tally(bs, t) == if bs.len() == 0 { t } else { points(bs, t)[2 * bs.len() - 1].tally },
    decreases bs.len(),
{
    if bs.len() > 0 {
        let after = apply_all(t, bs[0].1);
        let rest = bs.drop_first();
        lemma_points_shape(rest, after);
        let ps = points(bs, t);
        let head = seq![PointView { at: bs[0].0, tally: t }, PointView { at: bs[0].0, tally: after }];
        assert(ps == head + points(rest, after));
        assert forall|k: int| 0 <= k < bs.len() implies {
            &&& (#[trigger] ps[2 * k]).at == bs[k].0
            &&& ps[2 * k + 1].at == bs[k].0
            &&& ps[2 * k + 1].tally == apply_all(ps[2 * k].tally, bs[k].1)
        } by {
            if k > 0 {
                assert(ps[2 * k] == points(rest, after)[2 * (k - 1)]);
                assert(ps[2 * k + 1] == points(rest, after)[2 * (k - 1) + 1]);
                assert(bs[k] == rest[k - 1]);
            }
        }
        assert forall|k: int| 0 <= k && k + 1 < bs.len() implies #[trigger] ps[2 * k + 2].tally == ps[2 * k + 1].tally by {
            if k > 0 {
                assert(ps[2 * k + 2] == points(rest, after)[2 * (k - 1) + 2]);
                assert(ps[2 * k + 1] == points(rest, after)[2 * (k - 1) + 1]);
            } else if rest.len() > 0 {
                assert(ps[2] == points(rest, after)[0]);
            }
        }
        if rest.len() > 0 {
            assert(ps[2 * bs.len() - 1] == points(rest, after)[2 * rest.len() - 1]);
        }
    }
}

/// For every time at which the log holds events, the timeline has a sample
/// just before and one just after them at that time; the second is the first
/// with exactly that time's effects applied, and the counts do not change
/// from one time to the next but through its events. The last sample holds
/// the final counts.
pub proof fn lemma_snapshot_bracketing(m: LogView, now: i64)
    requires
        is_listing(m, listing(m)),
    ensures
        ({
            let s = listing(m);
            let tl = timeline_spec(m, now);
            &&& tl.len() == 2 * s.len() + 1
            &&& s.len() > 0 ==> tl[0].tally == empty_tally()
            &&& forall|k: int| 0 <= k < s.len() ==> {
                &&& (#[trigger] tl[2 * k]).at == s[k].0
                &&& tl[2 * k + 1].at == s[k].0
                &&& m.contains_key(s[k].0)
                &&& tl[2 * k + 1].tally == apply_all(tl[2 * k].tally, m[s[k].0])
            }
            &&& forall|k: int| 0 <= k && k + 1 < s.len() ==> #[trigger] tl[2 * k + 2].tally == tl[2 * k + 1].tally
            &&& tl[2 * s.len() as int].at == now
            &&& tl[2 * s.len() as int].tally == if s.len() == 0 { empty_tally() } else { tl[2 * s.len() - 1].tally }
        }),
{
    let s = listing(m);
    let tl = timeline_spec(m, now);
    let ps = points(s, empty_tally());
    lemma_points_shape(s, empty_tally());
    assert forall|k: int| 0 <= k < 2 * s.len() implies tl[k] == #[trigger] ps[k] by {}
    assert forall|k: int| 0 <= k < s.len() implies {
        &&& (#[trigger] tl[2 * k]).at == s[k].0
        &&& tl[2 * k + 1].at == s[k].0
        &&& m.contains_key(s[k].0)
        &&& tl[2 * k + 1].tally == apply_all(tl[2 * k].tally, m[s[k].0])
    } by {
        assert(tl[2 * k] == ps[2 * k]);
        assert(tl[2 * k + 1] == ps[2 * k + 1]);
    }
    assert forall|k: int| 0 <= k && k + 1 < s.len() implies #[trigger] tl[2 * k + 2].tally == tl[2 * k + 1].tally by {
        assert(tl[2 * k + 2] == ps[2 * k + 2]);
        assert(tl[2 * k + 1] == ps[2 * k + 1]);
    }
    if s.len() > 0 {
        assert(tl[0] == ps[0]);
        assert(tl[2 * s.len() - 1] == ps[2 * s.len() - 1]);
    }
}

/// The timeline is a function of the log: two builds of one log differ at
/// most in the time of their last sample, which holds the same counts.
pub proof fn lemma_timeline_deterministic(m: LogView, now1: i64, now2: i64)
    ensures
        timeline_spec(m, now1).drop_last() == timeline_spec(m, now2).drop_last(),
        timeline_spec(m, now1).last().tally == timeline_spec(m, now2).last().tally,
{
    assert(timeline_spec(m, now1).drop_last() =~= timeline_spec(m, now2).drop_last());
}

/// The labels counted in `c`.
pub open spec fn counted(c: Counts) -> Seq<Seq<char>> {
    c.map_values(|p: (Seq<char>, i64)| p.0)
}

fn add_names(r: &mut Vec<String>, c: &Vec<(String, i64)>)
    requires
        names(old(r)@).no_duplicates(),
    ensures
        names(final(r)@).no_duplicates(),
        forall|l: Seq<char>| #[trigger] names(final(r)@).contains(l) <==> (names(old(r)@).contains(l)
            || counted(counts_view(c@)).contains(l)),
{
    let ghost cs = counted(counts_view(c@));
    let mut i: usize = 0;
    while i < c.len()
        invariant
            i <= c@.len(),
            cs == counted(counts_view(c@)),
            names(r@).no_duplicates(),
            forall|l: Seq<char>| #[trigger] names(r@).contains(l) <==> (names(old(r)@).contains(l)
                || cs.subrange(0, i as int).contains(l)),
        decreases c@.len() - i,
    {
        let ghost before = names(r@);
        assert(cs[i as int] == c@[i as int].0@);
        match find_name(r, &c[i].0) {
            None => {
                r.push(c[i].0.clone());
                assert(names(r@) =~= before.push(cs[i as int]));
                assert(names(r@)[before.len() as int] == cs[i as int]);
                assert forall|l: Seq<char>| #[trigger] before.contains(l) implies names(r@).contains(l) by {
                    let k = choose|k: int| 0 <= k < before.len() && #[trigger] before[k] == l;
                    assert(names(r@)[k] == l);
                }
            },
            Some(j) => {
                assert(before[j as int] == cs[i as int]);
            },
        }
        assert forall|l: Seq<char>| #[trigger] names(r@).contains(l) <==> (names(old(r)@).contains(l)
            || cs.subrange(0, i + 1).contains(l)) by {
            assert(before.contains(l) <==> (names(old(r)@).contains(l) || cs.subrange(0, i as int).contains(l)));
            if cs.subrange(0, i + 1).contains(l) && !cs.subrange(0, i as int).contains(l) {
                let k = choose|k: int| 0 <= k < i + 1 && #[trigger] cs.subrange(0, i + 1)[k] == l;
                if k < i {
                    assert(cs.subrange(0, i as int)[k] == l);
                }
                assert(l == cs[i as int]);
            }
            if cs.subrange(0, i as int).contains(l) {
                let k = choose|k: int| 0 <= k < i && #[trigger] cs.subrange(0, i as int)[k] == l;
                assert(cs.subrange(0, i + 1)[k] == l);
            }
            if l == cs[i as int] {
                assert(cs.subrange(0, i + 1)[i as int] == l);
            }
            if names(r@).contains(l) && !before.contains(l) {
                assert(l == cs[i as int]);
            }
        }
        i = i + 1;
    }
    assert(cs.subrange(0, i as int) =~= cs);
}

impl DataPoint {
    /// The labels counted in this sample, for issues or for pull requests,
    /// each once.
    pub fn label_names(&self) -> (r: Vec<String>)
        ensures
            names(r@).no_duplicates(),
            forall|l: Seq<char>| #[trigger] names(r@).contains(l) <==> (counted(self@.tally.issue_labels).contains(l)
                || counted(self@.tally.pr_labels).contains(l)),
    {
        let mut r: Vec<String> = Vec::new();
        assert(names(r@) =~= Seq::<Seq<char>>::empty());
        add_names(&mut r, &self.issue_labels);
        add_names(&mut r, &self.pr_labels);
        r
    }
}

/// The count of `l` in `c`; zero where `l` is not counted.
pub open spec fn count_in(c: Counts, l: Seq<char>) -> i64 {
    if has_key(c, l) {
        c[choose|i: int| 0 <= i < c.len() && c[i].0 == l].1
    } else {
        0
    }
}

/// `c` moved by `d` steps of one, up where `d` is positive, down where it is
/// negative, wrapping at the ends of `i64`.
pub open spec fn shift(c: i64, d: int) -> i64
    decreases (if d >= 0 { d } else { -d }),
{
    if d == 0 {
        c
    } else if d > 0 {
        nudge(shift(c, d - 1), true)
    } else {
        nudge(shift(c, d + 1), false)
    }
}

/// How often `l` occurs in `ls`.
pub open spec fn occurrences(ls: Seq<Seq<char>>, l: Seq<char>) -> int
    decreases ls.len(),
{
    if ls.len() == 0 {
        0
    } else {
        occurrences(ls.drop_last(), l) + if ls.last() == l { 1int } else { 0int }
    }
}

/// The net move of one effect on the count of `l`, for pull requests where
/// `pr`, else for issues.
pub open spec fn label_move(e: Effect, pr: bool, l: Seq<char>) -> int {
    if e.pull_request != pr {
        0
    } else if e.up {
        occurrences(e.labels, l)
    } else {
        -occurrences(e.labels, l)
    }
}

/// The net move of one effect on the open count, for pull requests where
/// `pr`, else for issues.
pub open spec fn open_move(e: Effect, pr: bool) -> int {
    if e.pull_request != pr || !e.moves_open {
        0
    } else if e.up {
        1
    } else {
        -1
    }
}

/// The net move of the effects `es` on the count of `l`.
pub open spec fn net_label_move(es: Seq<Effect>, pr: bool, l: Seq<char>) -> int
    decreases es.len(),
{
    if es.len() == 0 {
        0
    } else {
        net_label_move(es.drop_last(), pr, l) + label_move(es.last(), pr, l)
    }
}

/// The net move of the effects `es` on the open count.
pub open spec fn net_open_move(es: Seq<Effect>, pr: bool) -> int
    decreases es.len(),
{
    if es.len() == 0 {
        0
    } else {
        net_open_move(es.drop_last(), pr) + open_move(es.last(), pr)
    }
}

proof fn lemma_nudge_back(c: i64, up: bool)
    ensures
        nudge(nudge(c, up), !up) == c,
{
}

proof fn lemma_shift_step(c: i64, d: int, up: bool)
    ensures
        nudge(shift(c, d), up) == shift(c, if up { d + 1 } else { d - 1 }),
    decreases (if d >= 0 { d } else { -d }),
{
    if up {
        if d < 0 {
            lemma_nudge_back(shift(c, d + 1), false);
        }
    } else {
        if d > 0 {
            lemma_nudge_back(shift(c, d - 1), true);
        }
    }
}

proof fn lemma_bump_count(c: Counts, l: Seq<char>, up: bool, q: Seq<char>)
    requires
        keys_unique(c),
    ensures
        keys_unique(bump(c, l, up)),
        count_in(bump(c, l, up), q) == if l == q { nudge(count_in(c, q), up) } else { count_in(c, q) },
{
    let b = bump(c, l, up);
    if has_key(c, l) {
        let i = choose|i: int| 0 <= i < c.len() && c[i].0 == l;
        assert(b.len() == c.len());
        assert forall|a: int, z: int| 0 <= a < z < b.len() implies b[a].0 != b[z].0 by {
            assert(b[a].0 == c[a].0 && b[z].0 == c[z].0);
        }
        if has_key(c, q) {
            let j = choose|j: int| 0 <= j < c.len() && c[j].0 == q;
            assert(b[j].0 == q);
            let jb = choose|j: int| 0 <= j < b.len() && b[j].0 == q;
            assert(b[jb].0 == c[jb].0);
            assert(jb == j);
        } else {
            assert forall|j: int| 0 <= j < b.len() implies b[j].0 != q by {
                assert(b[j].0 == c[j].0);
            }
        }
    } else {
        assert forall|a: int, z: int| 0 <= a < z < b.len() implies b[a].0 != b[z].0 by {
            if z < c.len() {
                assert(b[a] == c[a] && b[z] == c[z]);
            } else {
                assert(b[a] == c[a]);
            }
        }
        if has_key(c, q) {
            let j = choose|j: int| 0 <= j < c.len() && c[j].0 == q;
            assert(b[j] == c[j]);
            let jb = choose|j: int| 0 <= j < b.len() && b[j].0 == q;
            if jb < c.len() {
                assert(b[jb] == c[jb]);
            }
            assert(jb == j);
        } else if l == q {
            assert(b[c.len() as int].0 == q);
            let jb = choose|j: int| 0 <= j < b.len() && b[j].0 == q;
            if jb < c.len() {
                assert(b[jb] == c[jb]);
            }
        } else {
            assert forall|j: int| 0 <= j < b.len() implies b[j].0 != q by {
                if j < c.len() {
                    assert(b[j] == c[j]);
                }
            }
        }
    }
}

proof fn lemma_bump_all_count(c: Counts, ls: Seq<Seq<char>>, up: bool, q: Seq<char>)
    requires
        keys_unique(c),
    ensures
        keys_unique(bump_all(c, ls, up)),
        count_in(bump_all(c, ls, up), q) == shift(
            count_in(c, q),
            if up { occurrences(ls, q) } else { -occurrences(ls, q) },
        ),
    decreases ls.len(),
{
    if ls.len() > 0 {
        let pre = bump_all(c, ls.drop_last(), up);
        lemma_bump_all_count(c, ls.drop_last(), up, q);
        lemma_bump_count(pre, ls.last(), up, q);
        let d = if up { occurrences(ls.drop_last(), q) } else { -occurrences(ls.drop_last(), q) };
        if ls.last() == q {
            lemma_shift_step(count_in(c, q), d, up);
        }
    }
}

/// The counts that the effects `es` leave from `t`: each open count and
/// each label's count moved by the effects' net move on it.
pub proof fn lemma_apply_all_counts(t: TallyView, es: Seq<Effect>, q: Seq<char>)
    requires
        keys_unique(t.issue_labels),
        keys_unique(t.pr_labels),
    ensures
        keys_unique(apply_all(t, es).issue_labels),
        keys_unique(apply_all(t, es).pr_labels),
        apply_all(t, es).open_issues == shift(t.open_issues, net_open_move(es, false)),
        apply_all(t, es).open_prs == shift(t.open_prs, net_open_move(es, true)),
        count_in(apply_all(t, es).issue_labels, q) == shift(count_in(t.issue_labels, q), net_label_move(es, false, q)),
        count_in(apply_all(t, es).pr_labels, q) == shift(count_in(t.pr_labels, q), net_label_move(es, true, q)),
    decreases es.len(),
{
    if es.len() > 0 {
        let pre = apply_all(t, es.drop_last());
        let e = es.last();
        lemma_apply_all_counts(t, es.drop_last(), q);
        lemma_bump_all_count(pre.issue_labels, e.labels, e.up, q);
        lemma_bump_all_count(pre.pr_labels, e.labels, e.up, q);
        lemma_shift_chain(count_in(t.issue_labels, q), net_label_move(es.drop_last(), false, q), label_move(e, false, q));
        lemma_shift_chain(count_in(t.pr_labels, q), net_label_move(es.drop_last(), true, q), label_move(e, true, q));
        lemma_shift_chain(t.open_issues, net_open_move(es.drop_last(), false), open_move(e, false));
        lemma_shift_chain(t.open_prs, net_open_move(es.drop_last(), true), open_move(e, true));
    }
}

proof fn lemma_shift_chain(c: i64, a: int, b: int)
    ensures
        shift(shift(c, a), b) == shift(c, a + b),
    decreases (if b >= 0 { b } else { -b }),
{
    if b > 0 {
        lemma_shift_chain(c, a, b - 1);
        lemma_shift_step(c, a + b - 1, true);
    } else if b < 0 {
        lemma_shift_chain(c, a, b + 1);
        lemma_shift_step(c, a + b + 1, false);
    }
}

proof fn lemma_points_unique(bs: Seq<Bucket>, t: TallyView)
    requires
        keys_unique(t.issue_labels),
        keys_unique(t.pr_labels),
    ensures
        forall|k: int| 0 <= k < points(bs, t).len() ==> keys_unique((#[trigger] points(bs, t)[k]).tally.issue_labels)
            && keys_unique(points(bs, t)[k].tally.pr_labels),
    decreases bs.len(),
{
    if bs.len() > 0 {
        let after = apply_all(t, bs[0].1);
        lemma_apply_all_counts(t, bs[0].1, Seq::empty());
        let rest = bs.drop_first();
        lemma_points_unique(rest, after);
        lemma_points_shape(rest, after);
        let ps = points(bs, t);
        let head = seq![PointView { at: bs[0].0, tally: t }, PointView { at: bs[0].0, tally: after }];
        assert(ps == head + points(rest, after));
        assert forall|k: int| 0 <= k < ps.len() implies keys_unique((#[trigger] ps[k]).tally.issue_labels)
            && keys_unique(ps[k].tally.pr_labels) by {
            if k >= 2 {
                assert(ps[k] == points(rest, after)[k - 2]);
            }
        }
    }
}

/// For every time at which the log holds events, the sample after them
/// differs from the sample before exactly by the net move of that time's
/// events: on the open issues, on the open pull requests, and on the count
/// of every label, for issues and for pull requests (a label not counted
/// yet counts as zero).
pub proof fn lemma_bracketing_counts(m: LogView, now: i64, q: Seq<char>)
    requires
        is_listing(m, listing(m)),
    ensures
        ({
            let s = listing(m);
            let tl = timeline_spec(m, now);
            forall|k: int| 0 <= k < s.len() ==> {
                let before = (#[trigger] tl[2 * k]).tally;
                let after = tl[2 * k + 1].tally;
                let es = m[s[k].0];
                &&& after.open_issues == shift(before.open_issues, net_open_move(es, false))
                &&& after.open_prs == shift(before.open_prs, net_open_move(es, true))
                &&& count_in(after.issue_labels, q) == shift(count_in(before.issue_labels, q), net_label_move(es, false, q))
                &&& count_in(after.pr_labels, q) == shift(count_in(before.pr_labels, q), net_label_move(es, true, q))
            }
        }),
{
    let s = listing(m);
    let tl = timeline_spec(m, now);
    lemma_snapshot_bracketing(m, now);
    let ps = points(s, empty_tally());
    lemma_points_shape(s, empty_tally());
    lemma_points_unique(s, empty_tally());
    assert forall|k: int| 0 <= k < s.len() implies {
        let before = (#[trigger] tl[2 * k]).tally;
        let after = tl[2 * k + 1].tally;
        let es = m[s[k].0];
        &&& after.open_issues == shift(before.open_issues, net_open_move(es, false))
        &&& after.open_prs == shift(before.open_prs, net_open_move(es, true))
        &&& count_in(after.issue_labels, q) == shift(count_in(before.issue_labels, q), net_label_move(es, false, q))
        &&& count_in(after.pr_labels, q) == shift(count_in(before.pr_labels, q), net_label_move(es, true, q))
    } by {
        assert(tl[2 * k] == ps[2 * k]);
        assert(keys_unique(ps[2 * k].tally.issue_labels));
        lemma_apply_all_counts(tl[2 * k].tally, m[s[k].0], q);
    }
}

} // verus!
