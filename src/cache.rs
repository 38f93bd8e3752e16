//! The issue history cache: per issue, the modification time as of the last
//! fetch of its events and the events fetched then, in order of time.
use std::collections::BTreeMap;
use vstd::prelude::*;
use crate::event::{
    IssueEvent, lemma_time_sorted, lemma_time_sorted_keeps_ordered, sort_by_time, time_ordered,
    time_sorted,
};

verus! {

broadcast use vstd::laws_cmp::group_laws_cmp;

/// The cache of one repository's issue histories.
pub struct IssueCache {
    /// Per issue number, its modification time when its events were fetched.
    pub last_updated: BTreeMap<u32, i64>,
    /// Per issue number, the events fetched then, in order of time.
    pub issue_events: BTreeMap<u32, Vec<IssueEvent>>,
}

/// The cached events of `number` may stand for an issue modified last at
/// `updated_at`.
pub open spec fn current_in(
    last_updated: Map<u32, i64>,
    issue_events: Map<u32, Vec<IssueEvent>>,
    number: u32,
    updated_at: i64,
) -> bool {
    &&& issue_events.contains_key(number)
    &&& last_updated.contains_key(number)
    &&& last_updated[number] == updated_at
}

impl IssueCache {
    /// Every list of events held is in order of time.
    pub open spec fn wf(&self) -> bool {
        forall|k: u32| #[trigger] self.issue_events@.contains_key(k) ==> time_ordered(self.issue_events@[k]@)
    }

    /// An empty cache.
    pub fn new() -> (r: IssueCache)
        ensures
            r.wf(),
            r.last_updated@ == Map::<u32, i64>::empty(),
            r.issue_events@ == Map::<u32, Vec<IssueEvent>>::empty(),
    {
        IssueCache { last_updated: BTreeMap::new(), issue_events: BTreeMap::new() }
    }

    /// The cached events of `number` stand for it as modified at `updated_at`.
    pub open spec fn is_current_spec(&self, number: u32, updated_at: i64) -> bool {
        current_in(self.last_updated@, self.issue_events@, number, updated_at)
    }

    /// Whether the cached events of `number` may be used as they are, for the
    /// issue as last modified at `updated_at`.
    pub fn is_current(&self, number: u32, updated_at: i64) -> (r: bool)
        ensures
            r == self.is_current_spec(number, updated_at),
    {
        match self.last_updated.get(&number) {
            Some(t) => *t == updated_at && self.issue_events.contains_key(&number),
            None => false,
        }
    }

    /// The events of `number` where the cache holds them for the issue as
    /// last modified at `updated_at`; `None` where they must be fetched.
    pub fn lookup(&self, number: u32, updated_at: i64) -> (r: Option<&Vec<IssueEvent>>)
        ensures
            match r {
                Some(v) => self.is_current_spec(number, updated_at) && *v == self.issue_events@[number]
                    && (self.wf() ==> time_ordered(v@)),
                None => !self.is_current_spec(number, updated_at),
            },
    {
        if self.is_current(number, updated_at) {
            self.issue_events.get(&number)
        } else {
            None
        }
    }

    /// Stores the freshly fetched `events` of `number`, stably sorted by
    /// time, together with the issue's modification time `updated_at`.
    pub fn store(&mut self, number: u32, updated_at: i64, events: Vec<IssueEvent>)
        ensures
            final(self).last_updated@ == old(self).last_updated@.insert(number, updated_at),
            final(self).issue_events@.dom() == old(self).issue_events@.dom().insert(number),
            forall|k: u32| k != number && old(self).issue_events@.contains_key(k)
                ==> final(self).issue_events@[k] == old(self).issue_events@[k],
            final(self).issue_events@[number]@ == time_sorted(events@),
            final(self).issue_events@[number]@.to_multiset() == events@.to_multiset(),
            time_ordered(final(self).issue_events@[number]@),
            time_ordered(events@) ==> final(self).issue_events@[number]@ == events@,
            old(self).wf() ==> final(self).wf(),
    {
        self.restore_events(number, events);
        self.last_updated.insert(number, updated_at);
    }

    /// Puts back the events of `number` kept from an earlier run, stably
    /// sorted by time: a list already in order is kept as it is. The
    /// modification times are left alone.
    pub fn restore_events(&mut self, number: u32, events: Vec<IssueEvent>)
        ensures
            final(self).last_updated@ == old(self).last_updated@,
            final(self).issue_events@ == old(self).issue_events@.insert(number, final(self).issue_events@[number]),
            final(self).issue_events@[number]@ == time_sorted(events@),
            final(self).issue_events@[number]@.to_multiset() == events@.to_multiset(),
            time_ordered(final(self).issue_events@[number]@),
            time_ordered(events@) ==> final(self).issue_events@[number]@ == events@,
            old(self).wf() ==> final(self).wf(),
    {
        proof {
            lemma_time_sorted(events@);
            if time_ordered(events@) {
                lemma_time_sorted_keeps_ordered(events@);
            }
        }
        let sorted = sort_by_time(events);
        self.issue_events.insert(number, sorted);
    }

    /// The cached events of `number`, whatever time they stand for.
    pub fn events(&self, number: u32) -> (r: Option<&Vec<IssueEvent>>)
        ensures
            match r {
                Some(v) => self.issue_events@.contains_key(number) && *v == self.issue_events@[number],
                None => !self.issue_events@.contains_key(number),
            },
    {
        self.issue_events.get(&number)
    }
}

/// Whatever the cache answers for an issue comes in order of time, whether
/// it was held from before or fetched and stored just now.
pub proof fn lemma_lookup_sorted(c: IssueCache, number: u32, updated_at: i64)
    requires
        c.wf(),
        c.is_current_spec(number, updated_at),
    ensures
        time_ordered(c.issue_events@[number]@),
{
}

/// Events stored by one run and put back by the next are the same list:
/// sorting an already sorted list changes nothing.
pub proof fn lemma_sorted_twice(fetched: Seq<IssueEvent>)
    ensures
        time_sorted(time_sorted(fetched)) == time_sorted(fetched),
{
    lemma_time_sorted(fetched);
    lemma_time_sorted_keeps_ordered(time_sorted(fetched));
}

/// After the events of an issue have been stored for a modification time,
/// the cache answers for that time with exactly those events, sorted by
/// time, without a fetch: a second run over an unchanged issue reuses them.
pub proof fn lemma_store_makes_current(
    before: IssueCache,
    after: IssueCache,
    number: u32,
    updated_at: i64,
    fetched: Seq<IssueEvent>,
)
    requires
        after.last_updated@ == before.last_updated@.insert(number, updated_at),
        after.issue_events@.dom() == before.issue_events@.dom().insert(number),
        after.issue_events@[number]@ == time_sorted(fetched),
    ensures
        after.is_current_spec(number, updated_at),
        after.issue_events@[number]@ == time_sorted(fetched),
        time_ordered(after.issue_events@[number]@),
        after.issue_events@[number]@.to_multiset() == fetched.to_multiset(),
{
    assert(after.issue_events@.dom().contains(number));
    lemma_time_sorted(fetched);
}

} // verus!
