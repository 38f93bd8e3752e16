//! The retry policy of the fetcher: what to do with each response to a
//! request, given the throttling headers it carries.
use vstd::prelude::*;
use vstd::string::StrSliceExecFns;

verus! {

/// `c` is a decimal digit.
pub open spec fn is_digit(c: char) -> bool {
    '0' <= c && c <= '9'
}

/// `s` is a non-empty run of decimal digits.
pub open spec fn is_decimal(s: Seq<char>) -> bool {
    s.len() > 0 && forall|i: int| 0 <= i < s.len() ==> is_digit(#[trigger] s[i])
}

/// The number that the digits `s` write in base ten.
pub open spec fn decimal_value(s: Seq<char>) -> nat
    decreases s.len(),
{
    if s.len() == 0 {
        0
    } else {
        decimal_value(s.drop_last()) * 10 + (s.last() as nat - '0' as nat) as nat
    }
}

proof fn lemma_decimal_grows(s: Seq<char>, i: int)
    requires
        0 <= i <= s.len(),
        forall|k: int| 0 <= k < s.len() ==> is_digit(#[trigger] s[k]),
    ensures
        decimal_value(s.subrange(0, i)) <= decimal_value(s),
    decreases s.len() - i,
{
    if i < s.len() {
        lemma_decimal_grows(s, i + 1);
        assert(s.subrange(0, i + 1).drop_last() =~= s.subrange(0, i));
    } else {
        assert(s.subrange(0, i) =~= s);
    }
}

/// The value of the header text `s` as a number of seconds, where it is
/// one that fits in a `u64`.
pub open spec fn seconds_of(s: Seq<char>) -> Option<u64> {
    if is_decimal(s) && decimal_value(s) <= u64::MAX {
        Some(decimal_value(s) as u64)
    } else {
        None
    }
}

/// Reads the decimal number of the header text `s`.
pub fn parse_seconds(s: &str) -> (r: Option<u64>)
    ensures
        r == seconds_of(s@),
{
    let n = s.unicode_len();
    if n == 0 {
        return None;
    }
    let mut v: u64 = 0;
    let mut i: usize = 0;
    while i < n
        invariant
            n == s@.len(),
            i <= n,
            forall|k: int| 0 <= k < i ==> is_digit(#[trigger] s@[k]),
            v as nat == decimal_value(s@.subrange(0, i as int)),
        decreases n - i,
    {
        let c = s.get_char(i);
        assert(s@.subrange(0, i + 1).drop_last() =~= s@.subrange(0, i as int));
        if !('0' <= c && c <= '9') {
            return None;
        }
        let d = (c as u32 - '0' as u32) as u64;
        if v > (u64::MAX - d) / 10 {
            proof {
                assert(decimal_value(s@.subrange(0, i + 1)) > u64::MAX) by (nonlinear_arith)
                    requires
                        decimal_value(s@.subrange(0, i + 1)) == v * 10 + d,
                        v > (u64::MAX - d) / 10,
                        d <= 9,
                ;
                if is_decimal(s@) {
                    lemma_decimal_grows(s@, i + 1);
                }
            }
            return None;
        }
        v = v * 10 + d;
        i = i + 1;
    }
    assert(s@.subrange(0, n as int) =~= s@);
    Some(v)
}

/// The throttling headers of a response, as text where present.
pub struct ThrottleHeaders {
    /// `Retry-After`: seconds to wait.
    pub retry_after: Option<String>,
    /// The number of requests left in the current quota window.
    pub remaining: Option<String>,
    /// The time, in seconds since the Unix epoch, at which the quota resets.
    pub reset: Option<String>,
}

/// Why a request failed.
#[derive(Debug, Clone, Copy, PartialEq, Eq)]
pub enum FetchError {
    /// An error status other than throttling.
    Status(u16),
    /// Still throttled once the backoff reached an hour.
    Throttled(u16),
    /// A throttling header that does not hold a number of seconds.
    BadHeader,
    /// The request cannot be sent again safely.
    NotReplayable,
}

/// What to do after a response.
#[derive(Debug, Clone, Copy, PartialEq, Eq)]
pub enum Verdict {
    /// The response is a success: hand it over.
    Done,
    /// Sleep this many seconds, then send the same request again.
    Retry(u64),
    /// Give up with this error.
    Fail(FetchError),
}

/// The first backoff interval, in seconds.
pub const FIRST_BACKOFF: u64 = 60;

/// Backoff intervals from this one on are not slept: the request fails.
pub const BACKOFF_LIMIT: u64 = 3600;

/// The state of the retry policy for one logical request.
pub struct Backoff {
    /// The interval that the next blind backoff would sleep.
    pub next_secs: u64,
}

/// The response status is a success.
pub open spec fn is_success(status: u16) -> bool {
    200 <= status && status <= 299
}

/// The response status is a throttling signal.
pub open spec fn is_throttle(status: u16) -> bool {
    status == 403 || status == 429
}

/// The seconds from `now` until `reset`, none where `reset` has passed.
pub open spec fn wait_until(reset: u64, now: u64) -> u64 {
    if reset > now { (reset - now) as u64 } else { 0 }
}

/// The verdict on a response, and the next backoff interval after it.
pub open spec fn verdict_spec(
    next_secs: u64,
    status: u16,
    retry_after: Option<Seq<char>>,
    remaining: Option<Seq<char>>,
    reset: Option<Seq<char>>,
    now: u64,
    replayable: bool,
) -> (Verdict, u64) {
    if is_success(status) {
        (Verdict::Done, next_secs)
    } else if !is_throttle(status) {
        (Verdict::Fail(FetchError::Status(status)), next_secs)
    } else if !replayable {
        (Verdict::Fail(FetchError::NotReplayable), next_secs)
    } else if retry_after is Some {
        match seconds_of(retry_after->0) {
            Some(n) => (Verdict::Retry(n), next_secs),
            None => (Verdict::Fail(FetchError::BadHeader), next_secs),
        }
    } else if remaining is Some && seconds_of(remaining->0) is None {
        (Verdict::Fail(FetchError::BadHeader), next_secs)
    } else if remaining is Some && seconds_of(remaining->0) == Some(0u64) && reset is Some {
        match seconds_of(reset->0) {
            Some(r) => (Verdict::Retry(wait_until(r, now)), next_secs),
            None => (Verdict::Fail(FetchError::BadHeader), next_secs),
        }
    } else if next_secs >= BACKOFF_LIMIT {
        (Verdict::Fail(FetchError::Throttled(status)), next_secs)
    } else {
        (Verdict::Retry(next_secs), (next_secs * 2) as u64)
    }
}

/// The text of an optional header.
pub open spec fn header_text(h: Option<String>) -> Option<Seq<char>> {
    match h {
        Some(s) => Some(s@),
        None => None,
    }
}

fn read_header(h: &Option<String>) -> (r: Option<Option<u64>>)
    ensures
        match h {
            Some(s) => r == Some(seconds_of(s@)),
            None => r is None,
        },
{
    match h {
        Some(s) => Some(parse_seconds(s.as_str())),
        None => None,
    }
}

impl Backoff {
    /// The interval never passes twice the limit: it doubles only below it.
    pub open spec fn wf(&self) -> bool {
        self.next_secs <= BACKOFF_LIMIT * 2
    }

    /// The state before the first response to a request.
    pub fn new() -> (r: Backoff)
        ensures
            r.next_secs == FIRST_BACKOFF,
            r.wf(),
    {
        Backoff { next_secs: FIRST_BACKOFF }
    }

    /// Decides what follows a response with `status` and the throttling
    /// `headers`, at `now` (seconds since the Unix epoch). Where
    /// `replayable` is false the request cannot be sent again.
    pub fn decide(&mut self, status: u16, headers: &ThrottleHeaders, now: u64, replayable: bool) -> (r:
        Verdict)
        requires
            old(self).wf(),
        ensures
            (r, final(self).next_secs) == verdict_spec(
                old(self).next_secs,
                status,
                header_text(headers.retry_after),
                header_text(headers.remaining),
                header_text(headers.reset),
                now,
                replayable,
            ),
            final(self).wf(),
    {
        if 200 <= status && status <= 299 {
            return Verdict::Done;
        }
        if status != 403 && status != 429 {
            return Verdict::Fail(FetchError::Status(status));
        }
        if !replayable {
            return Verdict::Fail(FetchError::NotReplayable);
        }
        match read_header(&headers.retry_after) {
            Some(Some(n)) => return Verdict::Retry(n),
            Some(None) => return Verdict::Fail(FetchError::BadHeader),
            None => {},
        }
        match read_header(&headers.remaining) {
            Some(None) => return Verdict::Fail(FetchError::BadHeader),
            Some(Some(0)) => match read_header(&headers.reset) {
                Some(Some(reset)) => {
                    let wait = if reset > now { reset - now } else { 0 };
                    return Verdict::Retry(wait);
                },
                Some(None) => return Verdict::Fail(FetchError::BadHeader),
                None => {},
            },
            _ => {},
        }
        if self.next_secs >= BACKOFF_LIMIT {
            return Verdict::Fail(FetchError::Throttled(status));
        }
        let wait = self.next_secs;
        self.next_secs = wait * 2;
        Verdict::Retry(wait)
    }
}

} // verus!
