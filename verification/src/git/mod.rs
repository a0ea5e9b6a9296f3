//! The repository snapshot model of the data-flow review window: changed
//! files of the working tree or of the last commit, their line counts and
//! their diffs, loaded file by file.


pub mod diff;
pub mod snapshot;
pub mod status;

use vstd::prelude::*;

use crate::text::{chars_of, concat, is_blank, string_from_chars, trim_end, trim_end_chars, trim_string, trimmed};

verus! {

/// What a command that succeeded printed, without trailing whitespace.
pub fn git_stdout_text(stdout: &str) -> (r: String)
    ensures
        r@ == trim_end(stdout@),
{
    let cs = chars_of(stdout);
    let t = trim_end_chars(cs.as_slice());
    string_from_chars(t.as_slice())
}

/// The error of a command that failed: what it wrote to standard error,
/// else what it printed, both trimmed, else a note naming the repository.
pub open spec fn git_error_of(stderr: Seq<char>, stdout: Seq<char>, repo: Seq<char>) -> Seq<char> {
    if trimmed(stderr).len() > 0 {
        trimmed(stderr)
    } else if trimmed(stdout).len() > 0 {
        trimmed(stdout)
    } else {
        "git command failed for "@ + repo
    }
}

pub fn git_error_text(stderr: &str, stdout: &str, repo: &str) -> (r: String)
    ensures
        r@ == git_error_of(stderr@, stdout@, repo@),
{
    if !is_blank(stderr) {
        trim_string(stderr)
    } else if !is_blank(stdout) {
        trim_string(stdout)
    } else {
        concat("git command failed for ", repo)
    }
}

} // verus!
