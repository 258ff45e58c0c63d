use bitkit::scm::{
    collect_new_file_names, collect_old_file_names, commit_state, is_tracked_name, last_commit, make_commit, revert_commit, FileEntry,
    ScmError, ScmState,
};
use std::collections::BTreeMap;

fn entry(name: &str, lines: &[&str]) -> FileEntry {
    FileEntry { name: name.to_string(), lines: lines.iter().map(|s| s.to_string()).collect() }
}

fn as_map(v: &[FileEntry]) -> BTreeMap<String, Vec<String>> {
    v.iter().map(|e| (e.name.clone(), e.lines.clone())).collect()
}

fn before() -> Vec<FileEntry> {
    vec![entry("a.txt", &["one", "two"]), entry("b.txt", &["gone"]), entry("c.txt", &["same"])]
}

fn working() -> Vec<FileEntry> {
    vec![entry("c.txt", &["same"]), entry("a.txt", &["one", "2", "three"]), entry("d/new.txt", &["fresh"])]
}

#[test]
fn collect_names() {
    let old = collect_old_file_names(&before());
    assert_eq!(old, vec!["a.txt", "b.txt", "c.txt"]);
    assert_eq!(collect_new_file_names(&working(), &old), vec!["d/new.txt"]);
}

#[test]
fn make_commit_parts() {
    let c = make_commit(&before(), &working());
    assert_eq!(as_map(&c.init), as_map(&[entry("d/new.txt", &["fresh"])]));
    assert_eq!(as_map(&c.delete), as_map(&[entry("b.txt", &["gone"])]));
    assert_eq!(c.diff.len(), 1);
    assert_eq!(c.diff[0].name, "a.txt");
}

#[test]
fn revert_of_commit_gives_previous_files() {
    let c = make_commit(&before(), &working());
    let restored = revert_commit(&working(), &c, &working());
    assert_eq!(as_map(&restored), as_map(&before()));
}

#[test]
fn first_commit_records_every_file() {
    let st = commit_state(None, working()).ok().unwrap();
    assert_eq!(st.commits.len(), 1);
    assert_eq!(as_map(&st.latest), as_map(&working()));
    assert_eq!(as_map(&st.commits[0].init), as_map(&working()));
    assert!(st.commits[0].diff.is_empty());
    assert!(st.commits[0].delete.is_empty());
}

#[test]
fn commit_then_revert_state() {
    let st = commit_state(None, before()).ok().unwrap();
    assert_eq!(last_commit(&st).err(), Some(ScmError::NothingToRevert));
    let st = commit_state(Some(st), working()).ok().unwrap();
    assert_eq!(st.commits.len(), 2);
    assert_eq!(as_map(&st.latest), as_map(&working()));
    let last = last_commit(&st).ok().unwrap();
    assert_eq!(last.diff.len(), 1);
    let restored = revert_commit(&st.latest, last, &st.latest);
    assert_eq!(as_map(&restored), as_map(&before()));
}

#[test]
fn commit_refused_without_commits() {
    let empty = ScmState { latest: vec![], commits: vec![] };
    assert_eq!(commit_state(Some(empty), working()).err(), Some(ScmError::NoCommits));
}

#[test]
fn revert_order_of_steps() {
    let latest = vec![entry("x", &["1"]), entry("y", &["2"])];
    let c = bitkit::scm::ScmCommit {
        init: vec![entry("x", &[])],
        diff: vec![entry("y", &["I 0 0"]), entry("z", &["I 0 made"])],
        delete: vec![entry("y", &["old"])],
    };
    let r = revert_commit(&latest, &c, &latest);
    assert_eq!(as_map(&r), as_map(&[entry("y", &["old"]), entry("z", &["made"])]));
}

#[test]
fn revert_patches_the_lines_read_back() {
    let latest = vec![entry("a", &[""]), entry("b", &["x"])];
    let c = bitkit::scm::ScmCommit {
        init: vec![],
        diff: vec![entry("a", &["I 0 first"]), entry("n", &["I 0 from disk?"])],
        delete: vec![],
    };
    let read_back = vec![entry("a", &[]), entry("n", &["on", "disk"])];
    let r = revert_commit(&latest, &c, &read_back);
    assert_eq!(
        as_map(&r),
        as_map(&[entry("a", &["first"]), entry("b", &["x"]), entry("n", &["from disk?", "on", "disk"])])
    );
}

#[test]
fn tracked_names() {
    assert!(is_tracked_name("a.txt"));
    assert!(is_tracked_name(""));
    assert!(!is_tracked_name(".scm"));
    assert!(!is_tracked_name(".git"));
}

#[test]
fn revert_after_commit_restores_the_saved_state() {
    let s0 = commit_state(None, before()).ok().unwrap();
    let before_commits = s0.commits.len();
    let before_latest = as_map(&s0.latest);
    let mut s1 = commit_state(Some(s0), working()).ok().unwrap();
    let restored = {
        let last = last_commit(&s1).ok().unwrap();
        revert_commit(&s1.latest, last, &s1.latest)
    };
    s1.commits.pop();
    s1.latest = restored;
    assert_eq!(s1.commits.len(), before_commits);
    assert_eq!(as_map(&s1.latest), before_latest);
    assert_eq!(as_map(&s1.commits[0].init), before_latest);
}
