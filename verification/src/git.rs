//! The version-control collaborator's verified half: the decisions read off
//! the repository's answers. Running the `git` commands themselves is I/O
//! and lives with the caller, which hands the raw output in.
use vstd::prelude::*;

use crate::submit::PushOutcome;
use crate::text::{contains_seq, contains_str, trim_chars, trim_spec};

verus! {

/// Whether a submission is recorded in history: the log listing for the
/// response document, as printed by the version-control tool, names at
/// least one commit.
pub fn has_response_in_history(log_output: &[char]) -> (r: bool)
    ensures
        r == (trim_spec(log_output@).len() > 0),
{
    let t = trim_chars(log_output);
    t.len() > 0
}

/// Whether a submission already exists: either history or the working tree
/// holds the response document.
pub fn has_existing_submission(in_history: bool, in_worktree: bool) -> (r: bool)
    ensures
        r == (in_history || in_worktree),
{
    in_history || in_worktree
}

/// Classifies a failed push from the tool's error text: a rejection marker
/// means the remote already holds a submission (terminal), anything else is
/// transient and retried.
pub fn classify_push_error(stderr: &[char]) -> (r: PushOutcome)
    ensures
        r == (if contains_seq(stderr@, "rejected"@) {
            PushOutcome::Conflict
        } else {
            PushOutcome::Failure
        }),
{
    if contains_str(stderr, "rejected") {
        PushOutcome::Conflict
    } else {
        PushOutcome::Failure
    }
}

} // verus!
