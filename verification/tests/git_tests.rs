use markforge::git::{
    after_staging, commit_all, file_log, file_log_args, parse_porcelain, repo_status, repo_status_first,
    repo_status_step, show_file_at, CommitStep, FileState, RepoStatus, StatusStep,
};

fn state(files: &[(String, FileState)], p: &str) -> Option<FileState> {
    files.iter().find(|(k, _)| k == p).map(|(_, s)| *s)
}

#[test]
fn badges_are_single_letters() {
    assert_eq!(FileState::Conflicted.badge(), "!");
    assert_eq!(FileState::Modified.badge(), "M");
    assert_eq!(FileState::Staged.badge(), "A");
    assert_eq!(FileState::Untracked.badge(), "U");
}

#[test]
fn porcelain_classifies_entries() {
    let out = " M a.md\0A  b.md\0?? new.md\0UU c.md\0DD d.md\0AA e.md\0 D gone.md\0MT t.md\0";
    let (files, _) = parse_porcelain("/repo", out).unwrap();
    assert_eq!(state(&files, "/repo/a.md"), Some(FileState::Modified));
    assert_eq!(state(&files, "/repo/b.md"), Some(FileState::Staged));
    assert_eq!(state(&files, "/repo/new.md"), Some(FileState::Untracked));
    assert_eq!(state(&files, "/repo/c.md"), Some(FileState::Conflicted));
    assert_eq!(state(&files, "/repo/d.md"), Some(FileState::Conflicted));
    assert_eq!(state(&files, "/repo/e.md"), Some(FileState::Conflicted));
    assert_eq!(state(&files, "/repo/gone.md"), Some(FileState::Modified));
    assert_eq!(state(&files, "/repo/t.md"), Some(FileState::Modified));
    assert_eq!(files.len(), 8);
}

#[test]
fn renames_skip_the_original_path() {
    let out = "R  new/name.md\0old/name.md\0 M x.md\0";
    let (files, dirty) = parse_porcelain("/r", out).unwrap();
    assert_eq!(files.len(), 2);
    assert_eq!(state(&files, "/r/new/name.md"), Some(FileState::Staged));
    assert_eq!(state(&files, "/r/old/name.md"), None);
    assert!(dirty.contains(&"/r/new".to_string()));
    assert!(!dirty.contains(&"/r/old".to_string()));
}

#[test]
fn every_ancestor_up_to_the_root_is_dirty() {
    let (files, dirty) = parse_porcelain("/r", "?? a/b/c/d.md\0?? a/x/\0").unwrap();
    for d in ["/r", "/r/a", "/r/a/b", "/r/a/b/c"] {
        assert!(dirty.contains(&d.to_string()), "{d} is dirty");
    }
    assert!(!dirty.contains(&"/".to_string()));
    // trailing slashes of untracked folders are dropped
    assert_eq!(state(&files, "/r/a/x"), Some(FileState::Untracked));
    assert_eq!(dirty.len(), 4);
}

#[test]
fn short_tokens_are_ignored() {
    let (files, dirty) = parse_porcelain("/r", "\0abc\0").unwrap();
    assert!(files.is_empty() && dirty.is_empty());
}

#[test]
fn status_outside_a_repository_is_empty() {
    let s = repo_status(Err("not a repo".into()), Ok("main\n".into()), Ok("main\n".into()), Ok(String::new()))
        .unwrap();
    assert!(s.root.is_none() && s.branch.is_none() && s.branches.is_empty());
    assert!(s.files.is_empty() && s.dirty_dirs.is_empty());
}

#[test]
fn status_snapshot_from_outputs() {
    let s = repo_status(
        Ok("/work/repo\n".into()),
        Ok("feature\n".into()),
        Ok("main\n  feature \n\n".into()),
        Ok(" M docs/a.md\0".into()),
    )
    .unwrap();
    assert_eq!(s.root.as_deref(), Some("/work/repo"));
    assert_eq!(s.branch.as_deref(), Some("feature"));
    assert_eq!(s.branches, vec!["main".to_string(), "feature".to_string()]);
    assert_eq!(s.state_of("/work/repo/docs/a.md"), Some(FileState::Modified));
    assert_eq!(s.state_of("/work/repo/docs/b.md"), None);
    assert!(s.dir_is_dirty("/work/repo/docs"));
    assert!(s.dir_is_dirty("/work/repo"));
    assert!(!s.dir_is_dirty("/work"));
    // paths compare by components
    assert!(s.dir_is_dirty("/work/repo/docs/"));
    assert!(s.dir_is_dirty("/work/repo/./docs"));
    assert!(s.dir_is_dirty("/work//repo/docs"));
    assert_eq!(s.state_of("/work/repo/./docs/a.md"), Some(FileState::Modified));
    assert_eq!(s.state_of("/work/repo/docs//a.md"), Some(FileState::Modified));
}

#[test]
fn blank_head_means_no_branch() {
    let s = repo_status(Ok("/r".into()), Ok("  \n".into()), Err("x".into()), Err("y".into())).unwrap();
    assert!(s.branch.is_none());
    assert!(s.branches.is_empty());
    assert!(s.files.is_empty());
}

#[test]
fn first_status_inside_a_repository_wins() {
    let outside = RepoStatus::empty();
    let inside = repo_status(Ok("/a".into()), Ok("main".into()), Ok("main".into()), Ok(String::new())).unwrap();
    let other = repo_status(Ok("/b".into()), Ok("dev".into()), Ok("dev".into()), Ok(String::new())).unwrap();
    let s = repo_status_first(vec![outside, inside, other]);
    assert_eq!(s.root.as_deref(), Some("/a"));
    assert!(repo_status_first(vec![RepoStatus::empty()]).root.is_none());
    assert!(repo_status_first(Vec::new()).root.is_none());
}

#[test]
fn log_lines_need_hash_and_date() {
    let out = "abc1234\t2024-05-01\tFix: tabs\tkept\nnodate\ndef5678\t2024-04-30\n";
    let log = file_log(Ok(out.into())).unwrap();
    assert_eq!(log.len(), 2);
    assert_eq!(log[0].hash, "abc1234");
    assert_eq!(log[0].date, "2024-05-01");
    assert_eq!(log[0].subject, "Fix: tabs\tkept");
    assert_eq!(log[1].subject, "");
    assert_eq!(file_log(Err("fatal".into())).err().as_deref(), Some("fatal"));
}

#[test]
fn git_arguments() {
    assert_eq!(
        file_log_args("notes/a.md", 20),
        vec!["log", "-n20", "--format=%h%x09%ad%x09%s", "--date=short", "--", "notes/a.md"]
    );
    assert_eq!(show_file_at("HEAD", "a.md"), vec!["show", "HEAD:a.md"]);
}

#[test]
fn commit_summary_is_first_line() {
    assert_eq!(
        commit_all(Ok("[main 1a2b3c] msg\n 1 file changed\n".into())).unwrap(),
        "[main 1a2b3c] msg"
    );
    assert_eq!(commit_all(Ok(String::new())).unwrap(), "committed");
    assert_eq!(commit_all(Err("nothing to commit".into())).unwrap_err(), "nothing to commit");
}

#[test]
fn default_status_is_outside_any_repository() {
    let s = RepoStatus::default();
    assert!(s.root.is_none() && s.branch.is_none());
    assert!(s.branches.is_empty() && s.files.is_empty() && s.dirty_dirs.is_empty());
    assert_eq!(s.state_of("/x"), None);
    assert!(!s.dir_is_dirty("/x"));
}

#[test]
fn status_search_stops_at_the_first_repository() {
    let inside = repo_status(Ok("/a".into()), Ok("main".into()), Ok("main".into()), Ok(String::new())).unwrap();
    match repo_status_step(inside, true) {
        StatusStep::Done(s) => assert_eq!(s.root.as_deref(), Some("/a")),
        StatusStep::Continue => panic!("a status inside a repository ends the search"),
    }
    assert!(matches!(repo_status_step(RepoStatus::empty(), true), StatusStep::Continue));
    match repo_status_step(RepoStatus::empty(), false) {
        StatusStep::Done(s) => assert!(s.root.is_none() && s.files.is_empty()),
        StatusStep::Continue => panic!("the last candidate ends the search"),
    }
}

#[test]
fn failed_staging_stops_the_commit_with_its_error() {
    match after_staging(Err("fatal: not a git repository".into())) {
        CommitStep::Stop(r) => assert_eq!(r, Err("fatal: not a git repository".to_string())),
        CommitStep::RunCommit => panic!("commit must not run after a failed add"),
    }
    assert!(matches!(after_staging(Ok(String::new())), CommitStep::RunCommit));
}
