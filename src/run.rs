//! One repository's run: the replay of every issue of its list from the
//! cache into one log, and the timeline of that log.
use vstd::prelude::*;
use crate::cache::{IssueCache, current_in};
use crate::event::{IssueEvent, IssueRecord};
use crate::labels::{LabelPairs, LabelTable};
use crate::timeline::{
    DataPoint, EventLog, LogView, PointView, ReplayError, first_absent_at, point_views, removed_name,
    replay_issue, replay_issue_spec, timeline_spec,
};

verus! {

/// Why a run over a repository stopped.
pub enum RunError {
    /// The cache holds no events for this issue.
    MissingEvents { number: u32 },
    /// The history of this issue takes away a label that it does not hold.
    RemovedNonexistentLabel { number: u32, label: String },
}

/// The log after the replay of the issues `issues` in order, each with the
/// events that `events` holds for it; `None` where the cache holds no events
/// for one as last modified, or its history is inconsistent.
pub open spec fn replay_all_spec(
    issues: Seq<IssueRecord>,
    updated: Map<u32, i64>,
    events: Map<u32, Vec<IssueEvent>>,
    t: LabelPairs,
) -> Option<LogView>
    decreases issues.len(),
{
    if issues.len() == 0 {
        Some(Map::empty())
    } else {
        match replay_all_spec(issues.drop_last(), updated, events, t) {
            Some(m) => {
                let is = issues.last();
                if current_in(updated, events, is.number, is.updated_at) {
                    replay_issue_spec(is.pull_request, is.created_at, t, events[is.number]@, m)
                } else {
                    None
                }
            },
            None => None,
        }
    }
}

/// The timeline of a run, where it succeeds.
pub open spec fn run_spec(
    issues: Seq<IssueRecord>,
    updated: Map<u32, i64>,
    events: Map<u32, Vec<IssueEvent>>,
    t: LabelPairs,
    now: i64,
) -> Option<Seq<PointView>> {
    match replay_all_spec(issues, updated, events, t) {
        Some(m) => Some(timeline_spec(m, now)),
        None => None,
    }
}

/// What an error of a run says of its inputs: it names the first issue of
/// the list (every issue before it replays) for which the cache holds no
/// events as last modified, or whose history first takes away, at some
/// event, a label that it does not hold, the label named by the error.
pub open spec fn error_fits(
    issues: Seq<IssueRecord>,
    updated: Map<u32, i64>,
    events: Map<u32, Vec<IssueEvent>>,
    t: LabelPairs,
    e: RunError,
) -> bool {
    exists|i: int|
        0 <= i < issues.len() && replay_all_spec(issues.subrange(0, i), updated, events, t) is Some
            && #[trigger] issue_error_fits(issues[i], updated, events, t, e)
}

/// The error `e` is the one that the issue `is` gives.
pub open spec fn issue_error_fits(
    is: IssueRecord,
    updated: Map<u32, i64>,
    events: Map<u32, Vec<IssueEvent>>,
    t: LabelPairs,
    e: RunError,
) -> bool {
    match e {
        RunError::MissingEvents { number } => {
            &&& number == is.number
            &&& !current_in(updated, events, number, is.updated_at)
        },
        RunError::RemovedNonexistentLabel { number, label } => {
            &&& number == is.number
            &&& current_in(updated, events, number, is.updated_at)
            &&& exists|k: int|
                0 <= k < events[number]@.len() && first_absent_at(t, events[number]@, k) && removed_name(
                    t,
                    #[trigger] events[number]@[k],
                ) == Some(label@)
        },
    }
}

/// Replays every issue of `issues`, in order, from the events that `cache`
/// holds for it, with labels normalised by `table`.
pub fn replay_all(issues: &Vec<IssueRecord>, cache: &IssueCache, table: &LabelTable) -> (r: Result<
    EventLog,
    RunError,
>)
    ensures
        match replay_all_spec(issues@, cache.last_updated@, cache.issue_events@, table@) {
            Some(m) => r matches Ok(log) && log@ == m,
            None => r is Err,
        },
        r matches Err(e) ==> error_fits(issues@, cache.last_updated@, cache.issue_events@, table@, e),
{
    let mut log = EventLog::new();
    let mut i: usize = 0;
    while i < issues.len()
        invariant
            i <= issues@.len(),
            replay_all_spec(issues@.subrange(0, i as int), cache.last_updated@, cache.issue_events@, table@) == Some(log@),
        decreases issues@.len() - i,
    {
        let is = &issues[i];
        assert(issues@.subrange(0, i + 1).drop_last() =~= issues@.subrange(0, i as int));
        match cache.lookup(is.number, is.updated_at) {
            None => {
                proof {
                    lemma_replay_all_stays_failed(issues@, cache.last_updated@, cache.issue_events@, table@, i + 1);
                }
                assert(issue_error_fits(issues@[i as int], cache.last_updated@, cache.issue_events@, table@, RunError::MissingEvents { number: is.number }));
                return Err(RunError::MissingEvents { number: is.number });
            },
            Some(evs) => {
                match replay_issue(&mut log, is.pull_request, is.created_at, evs, table) {
                    Ok(()) => {},
                    Err(ReplayError::RemovedNonexistentLabel { label }) => {
                        proof {
                            lemma_replay_all_stays_failed(issues@, cache.last_updated@, cache.issue_events@, table@, i + 1);
                        }
                        assert(issue_error_fits(issues@[i as int], cache.last_updated@, cache.issue_events@, table@, RunError::RemovedNonexistentLabel { number: is.number, label }));
                        return Err(RunError::RemovedNonexistentLabel { number: is.number, label });
                    },
                }
            },
        }
        i = i + 1;
    }
    assert(issues@.subrange(0, i as int) =~= issues@);
    Ok(log)
}

/// Once the replay of the first issues has failed, the whole run fails.
pub proof fn lemma_replay_all_stays_failed(
    issues: Seq<IssueRecord>,
    updated: Map<u32, i64>,
    events: Map<u32, Vec<IssueEvent>>,
    t: LabelPairs,
    k: int,
)
    requires
        0 <= k <= issues.len(),
        replay_all_spec(issues.subrange(0, k), updated, events, t) is None,
    ensures
        replay_all_spec(issues, updated, events, t) is None,
    decreases issues.len() - k,
{
    if k < issues.len() {
        assert(issues.subrange(0, k + 1).drop_last() =~= issues.subrange(0, k));
        lemma_replay_all_stays_failed(issues, updated, events, t, k + 1);
    } else {
        assert(issues.subrange(0, k) =~= issues);
    }
}

/// The timeline of a repository: every issue of `issues` replayed from the
/// events that `cache` holds for it, then the samples of the resulting log,
/// the last one at `now`.
pub fn run(issues: &Vec<IssueRecord>, cache: &IssueCache, table: &LabelTable, now: i64) -> (r: Result<
    Vec<DataPoint>,
    RunError,
>)
    ensures
        match run_spec(issues@, cache.last_updated@, cache.issue_events@, table@, now) {
            Some(tl) => r matches Ok(v) && point_views(v@) == tl,
            None => r is Err,
        },
        r matches Err(e) ==> error_fits(issues@, cache.last_updated@, cache.issue_events@, table@, e),
{
    match replay_all(issues, cache, table) {
        Ok(log) => Ok(log.timeline(now)),
        Err(e) => Err(e),
    }
}

/// Runs over the same issues, events and table give the same timeline, but
/// for the time of the last sample, which holds the same counts.
pub proof fn lemma_run_deterministic(
    issues: Seq<IssueRecord>,
    updated: Map<u32, i64>,
    events: Map<u32, Vec<IssueEvent>>,
    t: LabelPairs,
    now1: i64,
    now2: i64,
)
    ensures
        run_spec(issues, updated, events, t, now1) is Some <==> run_spec(issues, updated, events, t, now2) is Some,
        run_spec(issues, updated, events, t, now1) matches Some(a) ==> ({
            let b = run_spec(issues, updated, events, t, now2)->0;
            &&& a.drop_last() == b.drop_last()
            &&& a.last().tally == b.last().tally
        }),
{
    if let Some(m) = replay_all_spec(issues, updated, events, t) {
        crate::timeline::lemma_timeline_deterministic(m, now1, now2);
    }
}

} // verus!
