use issue_timeline::cache::IssueCache;
use issue_timeline::event::{sort_by_time, IssueEvent, IssueEventKind, IssueRecord};
use issue_timeline::labels::LabelTable;
use issue_timeline::run::{run, RunError};
use issue_timeline::timeline::{replay_issue, DataPoint, EventLog, ReplayError};

fn labeled(at: i64, name: &str) -> IssueEvent {
    IssueEvent { created_at: at, kind: IssueEventKind::Labeled { label: name.to_string() } }
}

fn unlabeled(at: i64, name: &str) -> IssueEvent {
    IssueEvent { created_at: at, kind: IssueEventKind::Unlabeled { label: name.to_string() } }
}

fn closed(at: i64) -> IssueEvent {
    IssueEvent { created_at: at, kind: IssueEventKind::Closed }
}

fn reopened(at: i64) -> IssueEvent {
    IssueEvent { created_at: at, kind: IssueEventKind::Reopened }
}

fn issue(number: u32, created_at: i64, pull_request: bool) -> IssueRecord {
    IssueRecord { number, created_at, updated_at: created_at + 1000, pull_request }
}

fn counts(pairs: &[(&str, i64)]) -> Vec<(String, i64)> {
    pairs.iter().map(|(l, n)| (l.to_string(), *n)).collect()
}

fn expect_point(p: &DataPoint, at: i64, issues: i64, prs: i64, il: &[(&str, i64)], pl: &[(&str, i64)]) {
    assert_eq!(p.at, at);
    assert_eq!(p.open_issues, issues);
    assert_eq!(p.open_prs, prs);
    assert_eq!(p.issue_labels, counts(il));
    assert_eq!(p.pr_labels, counts(pl));
}

fn cache_of(entries: Vec<(IssueRecord, Vec<IssueEvent>)>) -> (Vec<IssueRecord>, IssueCache) {
    let mut cache = IssueCache::new();
    let mut issues = Vec::new();
    for (is, evs) in entries {
        cache.store(is.number, is.updated_at, evs);
        issues.push(is);
    }
    (issues, cache)
}

#[test]
fn opened_labeled_closed_timeline() {
    let (t0, t1, t2, now) = (100, 200, 300, 1000);
    let (issues, cache) = cache_of(vec![(issue(1, t0, false), vec![labeled(t1, "bug"), closed(t2)])]);
    let tl = match run(&issues, &cache, &LabelTable::identity(), now) {
        Ok(tl) => tl,
        Err(_) => panic!("the run fails"),
    };
    assert_eq!(tl.len(), 7);
    expect_point(&tl[0], t0, 0, 0, &[], &[]);
    expect_point(&tl[1], t0, 1, 0, &[], &[]);
    expect_point(&tl[2], t1, 1, 0, &[], &[]);
    expect_point(&tl[3], t1, 1, 0, &[("bug", 1)], &[]);
    expect_point(&tl[4], t2, 1, 0, &[("bug", 1)], &[]);
    expect_point(&tl[5], t2, 0, 0, &[("bug", 0)], &[]);
    expect_point(&tl[6], now, 0, 0, &[("bug", 0)], &[]);
}

#[test]
fn removing_an_absent_label_fails() {
    let (issues, cache) = cache_of(vec![(issue(7, 10, false), vec![labeled(20, "bug"), unlabeled(30, "enhancement")])]);
    match run(&issues, &cache, &LabelTable::identity(), 100) {
        Err(RunError::RemovedNonexistentLabel { number, label }) => {
            assert_eq!(number, 7);
            assert_eq!(label, "enhancement");
        }
        _ => panic!("an inconsistent history must fail"),
    }
}

#[test]
fn removing_a_label_twice_fails_in_replay() {
    let mut log = EventLog::new();
    let evs = vec![labeled(20, "bug"), unlabeled(30, "bug"), unlabeled(40, "bug")];
    match replay_issue(&mut log, false, 10, &evs, &LabelTable::identity()) {
        Err(ReplayError::RemovedNonexistentLabel { label }) => assert_eq!(label, "bug"),
        Ok(()) => panic!("the second removal must fail"),
    }
}

#[test]
fn missing_events_fail_the_run() {
    let cache = IssueCache::new();
    match run(&vec![issue(3, 10, false)], &cache, &LabelTable::identity(), 100) {
        Err(RunError::MissingEvents { number }) => assert_eq!(number, 3),
        _ => panic!("an issue without events must fail"),
    }
}

#[test]
fn timeline_is_the_same_twice_but_for_now() {
    let make = || cache_of(vec![
        (issue(1, 10, false), vec![labeled(20, "a"), closed(40)]),
        (issue(2, 15, true), vec![labeled(20, "b"), labeled(25, "a")]),
    ]);
    let (i1, c1) = make();
    let (i2, c2) = make();
    let a = run(&i1, &c1, &LabelTable::identity(), 1000).ok().unwrap();
    let b = run(&i2, &c2, &LabelTable::identity(), 2000).ok().unwrap();
    assert_eq!(a.len(), b.len());
    for k in 0..a.len() - 1 {
        assert_eq!(a[k].at, b[k].at);
        assert_eq!(a[k].open_issues, b[k].open_issues);
        assert_eq!(a[k].open_prs, b[k].open_prs);
        assert_eq!(a[k].issue_labels, b[k].issue_labels);
        assert_eq!(a[k].pr_labels, b[k].pr_labels);
    }
    let (la, lb) = (&a[a.len() - 1], &b[b.len() - 1]);
    assert_eq!(la.at, 1000);
    assert_eq!(lb.at, 2000);
    assert_eq!(la.issue_labels, lb.issue_labels);
    assert_eq!(la.open_issues, lb.open_issues);
}

#[test]
fn same_time_events_are_bracketed_together() {
    // Two issues opened at the same time, one closed later.
    let (issues, cache) = cache_of(vec![
        (issue(1, 50, false), vec![labeled(50, "x"), closed(80)]),
        (issue(2, 50, true), vec![labeled(60, "y")]),
    ]);
    let tl = run(&issues, &cache, &LabelTable::identity(), 500).ok().unwrap();
    assert_eq!(tl.len(), 7);
    expect_point(&tl[0], 50, 0, 0, &[], &[]);
    expect_point(&tl[1], 50, 1, 1, &[("x", 1)], &[]);
    expect_point(&tl[2], 60, 1, 1, &[("x", 1)], &[]);
    expect_point(&tl[3], 60, 1, 1, &[("x", 1)], &[("y", 1)]);
    expect_point(&tl[4], 80, 1, 1, &[("x", 1)], &[("y", 1)]);
    expect_point(&tl[5], 80, 0, 1, &[("x", 0)], &[("y", 1)]);
    expect_point(&tl[6], 500, 0, 1, &[("x", 0)], &[("y", 1)]);
}

#[test]
fn labels_on_closed_issues_count_on_reopening() {
    let (issues, cache) = cache_of(vec![(
        issue(4, 10, false),
        vec![closed(20), labeled(30, "late"), labeled(35, "late"), reopened(40)],
    )]);
    let tl = run(&issues, &cache, &LabelTable::identity(), 99).ok().unwrap();
    assert_eq!(tl.len(), 7);
    expect_point(&tl[3], 20, 0, 0, &[], &[]);
    expect_point(&tl[4], 40, 0, 0, &[], &[]);
    expect_point(&tl[5], 40, 1, 0, &[("late", 1)], &[]);
    expect_point(&tl[6], 99, 1, 0, &[("late", 1)], &[]);
}

#[test]
fn labels_are_normalised_during_replay() {
    let table = LabelTable::for_repo(&"OoTRandomizer".to_string(), &"OoT-Randomizer".to_string());
    let (issues, cache) = cache_of(vec![(issue(9, 1, true), vec![labeled(2, "bug"), unlabeled(3, "Type: Bug")])]);
    let tl = run(&issues, &cache, &table, 10).ok().unwrap();
    expect_point(&tl[3], 2, 0, 1, &[], &[("Type: Bug", 1)]);
    expect_point(&tl[5], 3, 0, 1, &[], &[("Type: Bug", 0)]);
}

#[test]
fn events_out_of_order_are_sorted_on_store() {
    let (issues, cache) = cache_of(vec![(issue(1, 10, false), vec![closed(30), labeled(20, "bug")])]);
    let evs = cache.lookup(1, issues[0].updated_at).unwrap();
    assert_eq!(evs[0].created_at, 20);
    assert_eq!(evs[1].created_at, 30);
    let tl = run(&issues, &cache, &LabelTable::identity(), 100).ok().unwrap();
    expect_point(&tl[5], 30, 0, 0, &[("bug", 0)], &[]);
}

#[test]
fn cache_answers_only_for_the_same_modification_time() {
    let mut cache = IssueCache::new();
    assert!(cache.lookup(5, 100).is_none());
    cache.store(5, 100, vec![closed(3), reopened(1)]);
    assert!(cache.is_current(5, 100));
    assert!(!cache.is_current(5, 101));
    assert!(cache.lookup(5, 101).is_none());
    let first: Vec<i64> = cache.lookup(5, 100).unwrap().iter().map(|e| e.created_at).collect();
    assert_eq!(first, vec![1, 3]);
    let again: Vec<i64> = cache.lookup(5, 100).unwrap().iter().map(|e| e.created_at).collect();
    assert_eq!(first, again);
    assert!(cache.events(6).is_none());
}

#[test]
fn empty_log_gives_only_the_final_sample() {
    let log = EventLog::new();
    let tl = log.timeline(77);
    assert_eq!(tl.len(), 1);
    expect_point(&tl[0], 77, 0, 0, &[], &[]);
}

#[test]
fn events_at_one_time_keep_their_order_through_the_cache() {
    let (issues, cache) = cache_of(vec![(
        issue(2, 5, false),
        vec![labeled(10, "a"), unlabeled(10, "a"), labeled(10, "b")],
    )]);
    let tl = run(&issues, &cache, &LabelTable::identity(), 20).ok().unwrap();
    assert_eq!(tl.len(), 5);
    expect_point(&tl[2], 10, 1, 0, &[], &[]);
    expect_point(&tl[3], 10, 1, 0, &[("a", 0), ("b", 1)], &[]);
}

fn kinds(evs: &[IssueEvent]) -> Vec<(i64, String)> {
    evs.iter()
        .map(|e| {
            let k = match &e.kind {
                IssueEventKind::Labeled { label } => format!("+{label}"),
                IssueEventKind::Unlabeled { label } => format!("-{label}"),
                IssueEventKind::Closed => "closed".to_string(),
                IssueEventKind::Reopened => "reopened".to_string(),
                IssueEventKind::Other => "other".to_string(),
            };
            (e.created_at, k)
        })
        .collect()
}

#[test]
fn sort_is_stable_for_events_of_one_time() {
    let sorted = sort_by_time(vec![closed(9), labeled(5, "b"), labeled(3, "a"), unlabeled(5, "b"), reopened(5)]);
    assert_eq!(
        kinds(&sorted),
        vec![
            (3, "+a".to_string()),
            (5, "+b".to_string()),
            (5, "-b".to_string()),
            (5, "reopened".to_string()),
            (9, "closed".to_string()),
        ]
    );
}

#[test]
fn restored_sorted_lists_are_kept_verbatim() {
    let mut first = IssueCache::new();
    first.store(3, 50, vec![labeled(7, "x"), closed(7), labeled(2, "y")]);
    let stored = kinds(first.lookup(3, 50).unwrap());
    let mut second = IssueCache::new();
    second.last_updated.insert(3, 50);
    second.restore_events(3, vec![labeled(2, "y"), labeled(7, "x"), closed(7)]);
    assert_eq!(kinds(second.lookup(3, 50).unwrap()), stored);
    assert!(second.lookup(3, 51).is_none());
}

#[test]
fn stale_cache_entries_are_missing_events() {
    let mut cache = IssueCache::new();
    cache.store(1, 10, vec![]);
    let is = IssueRecord { number: 1, created_at: 5, updated_at: 11, pull_request: false };
    match run(&vec![is], &cache, &LabelTable::identity(), 100) {
        Err(RunError::MissingEvents { number }) => assert_eq!(number, 1),
        _ => panic!("a stale entry must not be replayed"),
    }
}

#[test]
fn first_failing_issue_is_reported() {
    let (issues, cache) = cache_of(vec![
        (issue(1, 10, false), vec![labeled(20, "ok")]),
        (issue(2, 10, false), vec![unlabeled(30, "first")]),
        (issue(3, 10, false), vec![unlabeled(15, "second")]),
    ]);
    match run(&issues, &cache, &LabelTable::identity(), 100) {
        Err(RunError::RemovedNonexistentLabel { number, label }) => {
            assert_eq!(number, 2);
            assert_eq!(label, "first");
        }
        _ => panic!("the second issue must fail"),
    }
}

#[test]
fn label_names_are_the_union_of_both_counts() {
    let (issues, cache) = cache_of(vec![
        (issue(1, 10, false), vec![labeled(20, "a"), labeled(21, "b")]),
        (issue(2, 10, true), vec![labeled(20, "b"), labeled(22, "c")]),
    ]);
    let tl = run(&issues, &cache, &LabelTable::identity(), 100).ok().unwrap();
    let mut names = tl[tl.len() - 1].label_names();
    names.sort();
    assert_eq!(names, vec!["a".to_string(), "b".to_string(), "c".to_string()]);
}
