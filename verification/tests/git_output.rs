use spec_editor_core::git::{FileState, GitError, GitRepo};

#[test]
fn status_lines() {
    let out = "?? core.csv\nA  new.csv\n D gone.csv\nR  a.csv -> b.csv\nM  staged.csv\n M work.csv\nMM both.csv\nx\n";
    let st = GitRepo::parse_status(out);
    let got: Vec<(&str, FileState)> = st.iter().map(|f| (f.path.as_str(), f.state)).collect();
    assert_eq!(
        got,
        vec![
            ("core.csv", FileState::Untracked),
            ("new.csv", FileState::Added),
            ("gone.csv", FileState::Deleted),
            ("a.csv -> b.csv", FileState::Renamed),
            ("staged.csv", FileState::Staged),
            ("work.csv", FileState::Modified),
            ("both.csv", FileState::Staged),
        ]
    );
}

#[test]
fn status_with_crlf_and_no_final_newline() {
    let st = GitRepo::parse_status("?? a.csv\r\n M b.csv");
    assert_eq!(st.len(), 2);
    assert_eq!(st[0].path, "a.csv");
    assert_eq!(st[1].path, "b.csv");
    assert_eq!(st[1].state, FileState::Modified);
    assert!(GitRepo::parse_status("").is_empty());
}

#[test]
fn log_lines() {
    let out = "abc\u{1f}first\u{1f}t\u{1f}1700000000\nbad line\ndef\u{1f}second\u{1f}u\u{1f}soon\n";
    let log = GitRepo::parse_log(out);
    assert_eq!(log.len(), 2);
    assert_eq!(log[0].hash, "abc");
    assert_eq!(log[0].message, "first");
    assert_eq!(log[0].author, "t");
    assert_eq!(log[0].timestamp, 1700000000);
    assert_eq!(log[1].timestamp, 0);
}

#[test]
fn git_arguments() {
    assert_eq!(GitRepo::status_args(), vec!["status", "--porcelain"]);
    assert_eq!(GitRepo::add_args(&[]), None);
    assert_eq!(GitRepo::add_args(&["core.csv".to_string()]), Some(vec!["add".to_string(), "--".to_string(), "core.csv".to_string()]));
    assert_eq!(GitRepo::commit_args("first"), vec!["commit", "-m", "first"]);
    assert_eq!(GitRepo::log_args(5), vec!["log", "-5", "--pretty=format:%H%x1f%s%x1f%an%x1f%at"]);
}

#[test]
fn made_commit_is_the_last_logged() {
    let log = GitRepo::parse_log("h\u{1f}first\u{1f}t\u{1f}1\n");
    assert_eq!(GitRepo::made_commit(log).unwrap().message, "first");
    assert_eq!(GitRepo::made_commit(Vec::new()), Err(GitError::NoCommitAfterCommit));
}

#[test]
fn diff_cells_is_not_implemented() {
    let repo = GitRepo { root: "/proj".to_string() };
    assert_eq!(repo.diff_cells("core.csv"), Err(GitError::DiffNotImplemented));
}
