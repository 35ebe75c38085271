//! The version-control guard in front of an in-place rewrite.

use vstd::prelude::*;
use vstd::string::*;

use crate::args::Opt;

verus! {

/// Why the version-control guard refused, or could not answer.
pub enum GitError {
    /// The file is not inside a repository; the text is what the tool reported.
    NotInRepository(String),
    /// The tool is not installed; the text is the reason.
    NotInstalled(String),
    /// The file has uncommitted changes and they were not allowed.
    DisallowDirty,
    /// The tool could not be run; the text is the reason.
    ExitStatusError(String),
}

impl GitError {
    /// A description of the error for people.
    pub fn message(&self) -> (r: String)
        ensures
            self matches GitError::NotInRepository(s) ==> r@ == "Not in a git repository.\n"@ + s@,
            self matches GitError::NotInstalled(s) ==> r@ == "`git` isn't installed.\n"@ + s@,
            self matches GitError::DisallowDirty ==> r@
                == "The file has uncommited changes and the `--allow-dirty` flag isn't set."@,
            self matches GitError::ExitStatusError(s) ==> r@ == "Failed to execute `git` command.\n"@ + s@,
    {
        match self {
            GitError::NotInRepository(s) => {
                let mut r = String::from_str("Not in a git repository.\n");
                r.append(s.as_str());
                r
            },
            GitError::NotInstalled(s) => {
                let mut r = String::from_str("`git` isn't installed.\n");
                r.append(s.as_str());
                r
            },
            GitError::DisallowDirty => String::from_str(
                "The file has uncommited changes and the `--allow-dirty` flag isn't set.",
            ),
            GitError::ExitStatusError(s) => {
                let mut r = String::from_str("Failed to execute `git` command.\n");
                r.append(s.as_str());
                r
            },
        }
    }
}

/// A version-control system that can say whether a file has uncommitted changes.
pub trait Vcs {
    /// Whether the system's tool can be run at all.
    fn is_available(&self) -> bool;

    /// Whether the file at `path` differs from what is committed.
    fn is_modified(&self, path: &str) -> Result<bool, GitError>;
}

/// The verdict on a rewrite: with dirty files allowed, or without a tool to ask,
/// the rewrite may go on; otherwise a modified file refuses it and a failed
/// query is passed on.
pub open spec fn verdict_spec(allow_dirty: bool, available: bool, modified: Result<bool, GitError>) -> Result<(), GitError> {
    if allow_dirty || !available {
        Ok(())
    } else {
        match modified {
            Ok(true) => Err(GitError::DisallowDirty),
            Ok(false) => Ok(()),
            Err(e) => Err(e),
        }
    }
}

/// The git checks.
pub struct Git();

impl Git {
    /// Decides whether a rewrite may go on, from the answers of the version-control system.
    pub fn dirty_verdict(allow_dirty: bool, available: bool, modified: Result<bool, GitError>) -> (r: Result<(), GitError>)
        ensures
            r == verdict_spec(allow_dirty, available, modified),
    {
        if allow_dirty || !available {
            return Ok(());
        }
        match modified {
            Ok(true) => Err(GitError::DisallowDirty),
            Ok(false) => Ok(()),
            Err(e) => Err(e),
        }
    }

    /// Runs the `--allow-dirty` checks on the file at `f`: the system is
    /// asked only when dirty files are not allowed, and whether the file is
    /// modified only when the system's tool is available.
    pub fn run_allow_dirty_checks<V: Vcs>(args: &Opt, vcs: &V, f: &str) -> (r: Result<(), GitError>)
        ensures
            args.allow_dirty ==> r == Ok::<(), GitError>(()),
            r == Err::<(), GitError>(GitError::DisallowDirty) ==> !args.allow_dirty,
    {
        if args.allow_dirty {
            return Ok(());
        }
        let available = vcs.is_available();
        if !available {
            return Git::dirty_verdict(false, false, Ok(false));
        }
        let modified = vcs.is_modified(f);
        Git::dirty_verdict(false, true, modified)
    }
}

} // verus!
