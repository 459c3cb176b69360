//! Source-location helpers: telling repository URLs from filesystem paths
//! and deriving a clone directory name. Resolution itself (clone, pull,
//! directory walks) is I/O and lives with the caller.
use vstd::prelude::*;

use crate::parser::{lemma_rfind_ch_is, lemma_rfind_ch_none, rfind_ch};
use crate::text::{ends_with_str, rfind_char, starts_with_str};

verus! {

/// Whether the argument names a repository rather than a local path.
pub open spec fn spec_is_git_url(s: Seq<char>) -> bool {
    ||| s.len() >= 4 && s.take(4) == "git@"@
    ||| s.len() >= 8 && s.take(8) == "https://"@
    ||| s.len() >= 7 && s.take(7) == "http://"@
    ||| s.len() >= 4 && s.skip(s.len() - 4) == ".git"@
}

pub fn is_git_url(s: &[char]) -> (r: bool)
    ensures
        r == spec_is_git_url(s@),
{
    proof {
        reveal_strlit("git@");
        reveal_strlit("https://");
        reveal_strlit("http://");
        reveal_strlit(".git");
    }
    starts_with_str(s, "git@") || starts_with_str(s, "https://") || starts_with_str(s, "http://")
        || ends_with_str(s, ".git")
}

/// Strips every trailing `.git` from a name.
pub open spec fn strip_git(s: Seq<char>) -> Seq<char>
    decreases s.len(),
{
    if s.len() >= 4 && s.skip(s.len() - 4) == ".git"@ {
        strip_git(s.take(s.len() - 4))
    } else {
        s
    }
}

/// The repository name a URL implies: the last path segment, trailing
/// `.git` removed.
pub open spec fn spec_repo_name(url: Seq<char>) -> Seq<char> {
    strip_git(url.skip(rfind_ch(url, '/') + 1))
}

pub fn repo_name_from_url(url: &[char]) -> (r: Vec<char>)
    ensures
        r@ == spec_repo_name(url@),
{
    proof {
        reveal_strlit(".git");
    }
    let un = url.len();
    let seg: Vec<char> = match rfind_char(url, '/') {
        Some(i) => {
            proof {
                lemma_rfind_ch_is(url@, '/', i as int);
            }
            assert(i < un);
            crate::parser::slice_from(url, i + 1)
        },
        None => {
            proof {
                lemma_rfind_ch_none(url@, '/');
            }
            crate::parser::slice_from(url, 0)
        },
    };
    let mut out = seg;
    loop
        invariant
            strip_git(out@) == spec_repo_name(url@),
        decreases out@.len(),
    {
        let n = out.len();
        if n >= 4 && ends_with_str(out.as_slice(), ".git") {
            let ghost before = out@;
            out.truncate(n - 4);
            proof {
                reveal_strlit(".git");
                assert(out@ =~= before.take(n as int - 4));
                assert(strip_git(before) == strip_git(out@));
            }
        } else {
            return out;
        }
    }
}

} // verus!
