use taboc::args::Opt;
use taboc::git::{Git, GitError, Vcs};

struct FakeVcs {
    available: bool,
    modified: Option<bool>,
}

impl Vcs for FakeVcs {
    fn is_available(&self) -> bool {
        self.available
    }

    fn is_modified(&self, _path: &str) -> Result<bool, GitError> {
        match self.modified {
            Some(m) => Ok(m),
            None => Err(GitError::NotInRepository("fatal".to_string())),
        }
    }
}

fn opt(allow_dirty: bool) -> Opt {
    Opt {
        input: "README.md".to_string(),
        update_existing: false,
        no_file_update: false,
        allow_dirty,
        no_vcs: false,
        max_depth: 6,
    }
}

#[test]
fn dirty_file_is_refused() {
    let vcs = FakeVcs { available: true, modified: Some(true) };
    let r = Git::run_allow_dirty_checks(&opt(false), &vcs, "README.md");
    assert!(matches!(r, Err(GitError::DisallowDirty)));
}

#[test]
fn dirty_file_is_allowed_with_flag() {
    let vcs = FakeVcs { available: true, modified: Some(true) };
    assert!(Git::run_allow_dirty_checks(&opt(true), &vcs, "README.md").is_ok());
}

#[test]
fn clean_file_passes() {
    let vcs = FakeVcs { available: true, modified: Some(false) };
    assert!(Git::run_allow_dirty_checks(&opt(false), &vcs, "README.md").is_ok());
}

#[test]
fn missing_tool_passes() {
    let vcs = FakeVcs { available: false, modified: Some(true) };
    assert!(Git::run_allow_dirty_checks(&opt(false), &vcs, "README.md").is_ok());
}

#[test]
fn query_failure_is_passed_on() {
    let vcs = FakeVcs { available: true, modified: None };
    let r = Git::run_allow_dirty_checks(&opt(false), &vcs, "README.md");
    assert!(matches!(r, Err(GitError::NotInRepository(_))));
}

#[test]
fn verdict_table() {
    assert!(Git::dirty_verdict(true, true, Ok(true)).is_ok());
    assert!(Git::dirty_verdict(false, false, Ok(true)).is_ok());
    assert!(Git::dirty_verdict(false, true, Ok(false)).is_ok());
    assert!(matches!(Git::dirty_verdict(false, true, Ok(true)), Err(GitError::DisallowDirty)));
    assert!(matches!(
        Git::dirty_verdict(false, true, Err(GitError::ExitStatusError("x".to_string()))),
        Err(GitError::ExitStatusError(_))
    ));
}

#[test]
fn git_error_messages() {
    assert!(GitError::DisallowDirty.message().contains("--allow-dirty"));
    assert!(GitError::NotInstalled("no git".to_string()).message().ends_with("no git"));
}
