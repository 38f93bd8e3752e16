//! The pagination walker: the continuation link of a paged collection, and
//! the gathering of its pages in order.
use vstd::prelude::*;
use vstd::string::StrSliceExecFns;

verus! {

/// `s` starts with the separator of link entries, a comma and a space.
pub open spec fn starts_sep(s: Seq<char>) -> bool {
    s.len() >= 2 && s[0] == ',' && s[1] == ' '
}

/// The entries of `s`, split at each separator from the left, where the
/// entry under way already holds `cur`.
pub open spec fn split_from(s: Seq<char>, cur: Seq<char>) -> Seq<Seq<char>>
    decreases s.len(),
{
    if s.len() == 0 {
        seq![cur]
    } else if starts_sep(s) {
        seq![cur] + split_from(s.subrange(2, s.len() as int), Seq::empty())
    } else {
        split_from(s.drop_first(), cur.push(s[0]))
    }
}

/// The entries of a link header.
pub open spec fn entries(s: Seq<char>) -> Seq<Seq<char>> {
    split_from(s, Seq::empty())
}

/// What closes an entry that points to the next page.
pub open spec fn next_suffix() -> Seq<char> {
    seq!['>', ';', ' ', 'r', 'e', 'l', '=', '"', 'n', 'e', 'x', 't', '"']
}

/// `e` is `<url>; rel="next"` with a non-empty URL free of line breaks.
pub open spec fn is_next_entry(e: Seq<char>) -> bool {
    &&& e.len() >= 15
    &&& e[0] == '<'
    &&& e.subrange(e.len() - 13, e.len() as int) == next_suffix()
    &&& forall|k: int| 1 <= k < e.len() - 13 ==> #[trigger] e[k] != '\n'
}

/// The URL of an entry that points to the next page.
pub open spec fn entry_url(e: Seq<char>) -> Seq<char> {
    e.subrange(1, e.len() - 13)
}

/// The URLs of the entries of `es` that point to a next page, in order.
pub open spec fn next_urls(es: Seq<Seq<char>>) -> Seq<Seq<char>>
    decreases es.len(),
{
    if es.len() == 0 {
        Seq::empty()
    } else if is_next_entry(es.last()) {
        next_urls(es.drop_last()).push(entry_url(es.last()))
    } else {
        next_urls(es.drop_last())
    }
}

/// The next page of a link header: the URL of its one entry that points to
/// a next page; none where no entry or more than one does.
pub open spec fn next_link_spec(s: Seq<char>) -> Option<Seq<char>> {
    let u = next_urls(entries(s));
    if u.len() == 1 {
        Some(u[0])
    } else {
        None
    }
}

/// Whether the entry `cs[a..b]` points to a next page.
fn is_next_at(cs: &Vec<char>, a: usize, b: usize) -> (r: bool)
    requires
        a <= b <= cs@.len(),
    ensures
        r == is_next_entry(cs@.subrange(a as int, b as int)),
{
    let ghost e = cs@.subrange(a as int, b as int);
    if b - a < 15 || cs[a] != '<' {
        return false;
    }
    let suffix = ['>', ';', ' ', 'r', 'e', 'l', '=', '"', 'n', 'e', 'x', 't', '"'];
    assert(suffix@ == next_suffix());
    let mut k: usize = 0;
    while k < 13
        invariant
            a + 15 <= b <= cs@.len(),
            k <= 13,
            suffix@ == next_suffix(),
            e == cs@.subrange(a as int, b as int),
            forall|j: int| 0 <= j < k ==> cs@[b - 13 + j] == next_suffix()[j],
        decreases 13 - k,
    {
        if cs[b - 13 + k] != suffix[k] {
            assert(e.subrange(e.len() - 13, e.len() as int)[k as int] != next_suffix()[k as int]);
            return false;
        }
        k = k + 1;
    }
    assert(e.subrange(e.len() - 13, e.len() as int) =~= next_suffix());
    let mut j: usize = a + 1;
    while j < b - 13
        invariant
            a + 15 <= b <= cs@.len(),
            a + 1 <= j <= b - 13,
            e == cs@.subrange(a as int, b as int),
            forall|m: int| a + 1 <= m < j ==> cs@[m] != '\n',
        decreases b - 13 - j,
    {
        if cs[j] == '\n' {
            assert(e[j - a] == '\n');
            return false;
        }
        j = j + 1;
    }
    assert forall|m: int| 1 <= m < e.len() - 13 implies #[trigger] e[m] != '\n' by {
        assert(e[m] == cs@[a + m]);
    }
    true
}

fn chars_of(s: &str) -> (r: Vec<char>)
    ensures
        r@ == s@,
{
    let n = s.unicode_len();
    let mut r: Vec<char> = Vec::new();
    let mut i: usize = 0;
    while i < n
        invariant
            n == s@.len(),
            i <= n,
            r@ == s@.subrange(0, i as int),
        decreases n - i,
    {
        r.push(s.get_char(i));
        i = i + 1;
        assert(r@ =~= s@.subrange(0, i as int));
    }
    assert(s@.subrange(0, n as int) =~= s@);
    r
}

proof fn lemma_next_urls_push(es: Seq<Seq<char>>, e: Seq<char>)
    ensures
        next_urls(es.push(e)) == if is_next_entry(e) {
            next_urls(es).push(entry_url(e))
        } else {
            next_urls(es)
        },
{
    assert(es.push(e).drop_last() =~= es);
}

/// The next page that the link header `header` points to, as
/// [`next_link_spec`] says.
pub fn next_link(header: &str) -> (r: Option<String>)
    ensures
        match r {
            Some(u) => next_link_spec(header@) == Some(u@),
            None => next_link_spec(header@) is None,
        },
{
    let cs = chars_of(header);
    let n = cs.len();
    let ghost all = cs@;
    let mut spans: Vec<(usize, usize)> = Vec::new();
    let ghost mut done: Seq<Seq<char>> = Seq::empty();
    let mut start: usize = 0;
    let mut i: usize = 0;
    assert(all.subrange(0, n as int) =~= all);
    assert(all.subrange(0, 0) =~= Seq::<char>::empty());
    while i < n
        invariant
            n == all.len(),
            all == cs@,
            start <= i <= n,
            entries(all) == done + split_from(all.subrange(i as int, n as int), all.subrange(start as int, i as int)),
            spans@.len() == next_urls(done).len(),
            forall|k: int| 0 <= k < spans@.len() ==> (#[trigger] spans@[k]).0 <= spans@[k].1 <= n
                && next_urls(done)[k] == all.subrange(spans@[k].0 as int, spans@[k].1 as int),
        decreases n - i,
    {
        let ghost rest = all.subrange(i as int, n as int);
        let ghost cur = all.subrange(start as int, i as int);
        if i + 1 < n && cs[i] == ',' && cs[i + 1] == ' ' {
            assert(starts_sep(rest));
            assert(rest.subrange(2, rest.len() as int) =~= all.subrange(i + 2, n as int));
            assert(all.subrange(i + 2, i + 2) =~= Seq::<char>::empty());
            proof {
                lemma_next_urls_push(done, cur);
            }
            if is_next_at(&cs, start, i) {
                spans.push((start + 1, i - 13));
                assert(entry_url(cur) =~= all.subrange(start + 1, i - 13));
            }
            let ghost old_done = done;
            proof {
                assert(done + split_from(rest, cur) =~= done.push(cur) + split_from(all.subrange(i + 2, n as int), Seq::empty()));
                done = done.push(cur);
            }
            assert forall|k: int| 0 <= k < spans@.len() implies (#[trigger] spans@[k]).0 <= spans@[k].1 <= n
                && next_urls(done)[k] == all.subrange(spans@[k].0 as int, spans@[k].1 as int) by {
                if k < next_urls(old_done).len() {
                    assert(next_urls(done)[k] == next_urls(old_done)[k]);
                }
            }
            start = i + 2;
            i = i + 2;
        } else {
            assert(!starts_sep(rest));
            assert(rest.drop_first() =~= all.subrange(i + 1, n as int));
            assert(cur.push(rest[0]) =~= all.subrange(start as int, i + 1));
            i = i + 1;
        }
    }
    let ghost cur = all.subrange(start as int, n as int);
    assert(all.subrange(n as int, n as int) =~= Seq::<char>::empty());
    assert(entries(all) =~= done.push(cur));
    proof {
        lemma_next_urls_push(done, cur);
    }
    if is_next_at(&cs, start, n) {
        spans.push((start + 1, n - 13));
        assert(entry_url(cur) =~= all.subrange(start + 1, n - 13));
    }
    assert(next_urls(entries(all)).len() == spans@.len());
    if spans.len() == 1 {
        let (a, b) = spans[0];
        assert(next_urls(entries(all))[0] == all.subrange(a as int, b as int));
        Some(header.substring_char(a, b).to_owned())
    } else {
        None
    }
}

/// The items of a paged collection gathered so far, in page order.
pub struct PageWalker<T> {
    pub items: Vec<T>,
}

impl<T> PageWalker<T> {
    /// A walk before its first page.
    pub fn new() -> (r: PageWalker<T>)
        ensures
            r.items@ == Seq::<T>::empty(),
    {
        PageWalker { items: Vec::new() }
    }

    /// Takes in one page and the value of its link header, if any; returns
    /// the URL of the next page to fetch, or none where the walk is over.
    pub fn take_page(&mut self, page: Vec<T>, link: Option<&str>) -> (next: Option<String>)
        ensures
            final(self).items@ == old(self).items@ + page@,
            match link {
                None => next is None,
                Some(h) => match next {
                    Some(u) => next_link_spec(h@) == Some(u@),
                    None => next_link_spec(h@) is None,
                },
            },
    {
        let mut page = page;
        self.items.append(&mut page);
        match link {
            Some(h) => next_link(h),
            None => None,
        }
    }

    /// The items of all pages taken, in order.
    pub fn into_items(self) -> (r: Vec<T>)
        ensures
            r@ == self.items@,
    {
        self.items
    }
}

} // verus!
