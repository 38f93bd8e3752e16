use issue_timeline::labels::LabelTable;
use issue_timeline::link::{next_link, PageWalker};
use issue_timeline::repo::{Repo, RepoParseError};
use issue_timeline::retry::{parse_seconds, Backoff, FetchError, ThrottleHeaders, Verdict};

const NEXT: &str = "<https://api.github.com/repositories/1/issues?state=all&page=2>; rel=\"next\", <https://api.github.com/repositories/1/issues?state=all&page=2>; rel=\"last\"";

#[test]
fn pages_are_gathered_in_order() {
    let mut walker = PageWalker::new();
    let first: Vec<u32> = (0..30).collect();
    let next = walker.take_page(first, Some(NEXT));
    assert_eq!(next.as_deref(), Some("https://api.github.com/repositories/1/issues?state=all&page=2"));
    let second: Vec<u32> = (30..35).collect();
    assert_eq!(walker.take_page(second, None), None);
    let items = walker.into_items();
    assert_eq!(items, (0..35).collect::<Vec<u32>>());
}

#[test]
fn next_link_needs_exactly_one_next_entry() {
    assert_eq!(next_link("<a>; rel=\"prev\", <b>; rel=\"last\""), None);
    assert_eq!(next_link("<a>; rel=\"next\", <b>; rel=\"next\""), None);
    assert_eq!(next_link("<a>; rel=\"next\""), Some("a".to_string()));
    assert_eq!(next_link("<>; rel=\"next\""), None);
    assert_eq!(next_link(""), None);
    assert_eq!(next_link("<x, y>; rel=\"next\""), None);
    assert_eq!(next_link("<p>; rel=\"prev\", <q>; rel=\"next\""), Some("q".to_string()));
}

fn headers(retry_after: Option<&str>, remaining: Option<&str>, reset: Option<&str>) -> ThrottleHeaders {
    ThrottleHeaders {
        retry_after: retry_after.map(|s| s.to_string()),
        remaining: remaining.map(|s| s.to_string()),
        reset: reset.map(|s| s.to_string()),
    }
}

#[test]
fn retry_after_is_slept_then_the_request_repeated() {
    let mut b = Backoff::new();
    assert_eq!(b.decide(429, &headers(Some("5"), None, None), 1000, true), Verdict::Retry(5));
    assert_eq!(b.decide(200, &headers(None, None, None), 1005, true), Verdict::Done);
    assert_eq!(b.next_secs, 60);
}

#[test]
fn exhausted_quota_waits_until_reset() {
    let mut b = Backoff::new();
    assert_eq!(b.decide(403, &headers(None, Some("0"), Some("1300")), 1000, true), Verdict::Retry(300));
    assert_eq!(b.decide(403, &headers(None, Some("0"), Some("900")), 1000, true), Verdict::Retry(0));
}

#[test]
fn blind_backoff_doubles_then_gives_up() {
    let mut b = Backoff::new();
    let mut waits = Vec::new();
    loop {
        match b.decide(429, &headers(None, Some("12"), None), 0, true) {
            Verdict::Retry(n) => waits.push(n),
            Verdict::Fail(e) => {
                assert_eq!(e, FetchError::Throttled(429));
                break;
            }
            Verdict::Done => panic!("a throttled response is no success"),
        }
    }
    assert_eq!(waits, vec![60, 120, 240, 480, 960, 1920]);
}

#[test]
fn other_failures_are_not_retried() {
    let mut b = Backoff::new();
    assert_eq!(b.decide(404, &headers(Some("5"), None, None), 0, true), Verdict::Fail(FetchError::Status(404)));
    assert_eq!(b.decide(429, &headers(Some("5"), None, None), 0, false), Verdict::Fail(FetchError::NotReplayable));
    assert_eq!(b.decide(429, &headers(Some("soon"), None, None), 0, true), Verdict::Fail(FetchError::BadHeader));
    assert_eq!(b.decide(403, &headers(None, Some("x"), None), 0, true), Verdict::Fail(FetchError::BadHeader));
    assert_eq!(b.decide(403, &headers(None, Some("0"), Some("later")), 0, true), Verdict::Fail(FetchError::BadHeader));
}

#[test]
fn seconds_are_read_in_base_ten() {
    assert_eq!(parse_seconds("0"), Some(0));
    assert_eq!(parse_seconds("042"), Some(42));
    assert_eq!(parse_seconds("18446744073709551615"), Some(u64::MAX));
    assert_eq!(parse_seconds("18446744073709551616"), None);
    assert_eq!(parse_seconds(""), None);
    assert_eq!(parse_seconds("-1"), None);
    assert_eq!(parse_seconds("1 "), None);
}

#[test]
fn repo_splits_at_first_slash() {
    let r = Repo::parse("midoshouse/ootr-multiworld").ok().unwrap();
    assert_eq!(r.org, "midoshouse");
    assert_eq!(r.repo, "ootr-multiworld");
    let r = Repo::parse("a/b/c").ok().unwrap();
    assert_eq!(r.org, "a");
    assert_eq!(r.repo, "b/c");
    assert_eq!(Repo::parse("noslash").err(), Some(RepoParseError));
    let r: Repo = "x/".parse().ok().unwrap();
    assert_eq!(r.repo, "");
}

#[test]
fn repo_from_str_examples() {
    let r: Repo = "OoTRandomizer/OoT-Randomizer".parse().ok().unwrap();
    assert_eq!((r.org.as_str(), r.repo.as_str()), ("OoTRandomizer", "OoT-Randomizer"));
    let r: Repo = "a/b/c".parse().ok().unwrap();
    assert_eq!((r.org.as_str(), r.repo.as_str()), ("a", "b/c"));
    let r: Repo = "/".parse().ok().unwrap();
    assert_eq!((r.org.as_str(), r.repo.as_str()), ("", ""));
    assert_eq!("midoshouse".parse::<Repo>().err(), Some(RepoParseError));
}

#[test]
fn labels_map_per_repository() {
    let s = |x: &str| x.to_string();
    let ootr = LabelTable::for_repo(&s("OoTRandomizer"), &s("OoT-Randomizer"));
    assert_eq!(ootr.normalize(&s("bug")), "Type: Bug");
    assert_eq!(ootr.normalize(&s("question")), "Status: Waiting for Author");
    assert_eq!(ootr.normalize(&s("wontfix")), "Status: Won't Fix");
    assert_eq!(ootr.normalize(&s("Component: Hints")), "Component: Hints");
    assert_eq!(ootr.normalize(&s("something new")), "something new");
    let mhmw = LabelTable::for_repo(&s("midoshouse"), &s("ootr-multiworld"));
    assert_eq!(mhmw.normalize(&s("bug")), "type: bug");
    assert_eq!(mhmw.normalize(&s("bizhawk")), "frontend: BizHawk");
    assert_eq!(mhmw.normalize(&s("component: gui")), "component: GUI");
    let other = LabelTable::for_repo(&s("someone"), &s("else"));
    assert_eq!(other.normalize(&s("bug")), "bug");
    assert_eq!(other.entries.len(), 0);
}
