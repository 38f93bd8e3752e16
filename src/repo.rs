//! Repository identity: an organisation and a repository name.
use vstd::prelude::*;
use vstd::string::StrSliceExecFns;

verus! {

/// An `org/repo` pair naming one repository.
pub struct Repo {
    pub org: String,
    pub repo: String,
}

/// The text given for a repository holds no `/`.
#[derive(Debug, Clone, Copy, PartialEq, Eq)]
pub struct RepoParseError;

/// No character of `s` is a slash.
pub open spec fn slash_free(s: Seq<char>) -> bool {
    forall|j: int| 0 <= j < s.len() ==> s[j] != '/'
}

/// `i` is the position of the first slash in `s`.
pub open spec fn first_slash_at(s: Seq<char>, i: int) -> bool {
    &&& 0 <= i < s.len()
    &&& s[i] == '/'
    &&& slash_free(s.subrange(0, i))
}

impl Repo {
    /// Splits `s` at its first slash: what precedes it is the organisation,
    /// what follows it the repository name.
    pub fn parse(s: &str) -> (r: Result<Repo, RepoParseError>)
        ensures
            match r {
                Ok(p) => exists|i: int|
                    first_slash_at(s@, i) && p.org@ == s@.subrange(0, i) && p.repo@ == s@.subrange(
                        i + 1,
                        s@.len() as int,
                    ),
                Err(_) => slash_free(s@),
            },
    {
        let n = s.unicode_len();
        let mut i: usize = 0;
        while i < n
            invariant
                n == s@.len(),
                i <= n,
                slash_free(s@.subrange(0, i as int)),
            decreases n - i,
        {
            if s.get_char(i) == '/' {
                let org = s.substring_char(0, i).to_owned();
                let repo = s.substring_char(i + 1, n).to_owned();
                assert(first_slash_at(s@, i as int));
                return Ok(Repo { org, repo });
            }
            assert(slash_free(s@.subrange(0, i as int + 1))) by {
                assert forall|j: int| 0 <= j < i + 1 implies #[trigger] s@.subrange(0, i as int + 1)[j] != '/' by {
                    if j < i {
                        assert(s@.subrange(0, i as int)[j] == s@[j]);
                    }
                }
            }
            i = i + 1;
        }
        assert(s@.subrange(0, i as int) =~= s@);
        Err(RepoParseError)
    }
}

impl std::str::FromStr for Repo {
    type Err = RepoParseError;

    fn from_str(s: &str) -> (r: Result<Repo, RepoParseError>)
        ensures
            match r {
                Ok(p) => exists|i: int|
                    first_slash_at(s@, i) && p.org@ == s@.subrange(0, i) && p.repo@ == s@.subrange(
                        i + 1,
                        s@.len() as int,
                    ),
                Err(_) => slash_free(s@),
            },
    {
        Repo::parse(s)
    }
}

} // verus!
