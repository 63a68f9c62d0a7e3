use git2::BranchType;
use git2::Oid;
use git2::Repository;
use git2::Signature;
use git2::Time;
use git_backport::BackportArgs;
use git_backport::NoEdit;
use git_backport::backport;

fn new_bare_repo() -> (tempfile::TempDir, Repository) {
    let dir = tempfile::tempdir().unwrap();
    let repo = Repository::init_bare(dir.path()).unwrap();
    let mut cfg = repo.config().unwrap();
    cfg.set_str("user.name", "tester").unwrap();
    cfg.set_str("user.email", "tester@example.com").unwrap();
    (dir, repo)
}

fn sig(t: i64) -> Signature<'static> {
    Signature::new("tester", "tester@example.com", &Time::new(t, 0)).unwrap()
}

fn commit_with(
    repo: &Repository,
    parents: &[Oid],
    files: &[(&str, &str)],
    msg: &str,
    t: i64,
) -> Oid {
    let mut tb = match parents.first() {
        Some(p) => {
            let base = repo.find_commit(*p).unwrap().tree().unwrap();
            repo.treebuilder(Some(&base)).unwrap()
        },
        None => repo.treebuilder(None).unwrap(),
    };
    for (name, content) in files {
        let blob = repo.blob(content.as_bytes()).unwrap();
        tb.insert(*name, blob, 0o100644).unwrap();
    }
    let tree = repo.find_tree(tb.write().unwrap()).unwrap();
    let pcommits: Vec<git2::Commit> =
        parents.iter().map(|p| repo.find_commit(*p).unwrap()).collect();
    let prefs: Vec<&git2::Commit> = pcommits.iter().collect();
    let s = sig(t);
    repo.commit(None, &s, &s, msg, &tree, &prefs).unwrap()
}

fn build_history(repo: &Repository) {
    let s = commit_with(repo, &[], &[("base.txt", "base")], "base", 100);
    let b = commit_with(repo, &[s], &[("b.txt", "b")], "B", 101);
    let a = commit_with(repo, &[b], &[("a.txt", "a")], "A", 102);
    let c = repo.find_commit(a).unwrap();
    repo.branch("main", &c, true).unwrap();
    let c2 = repo.find_commit(s).unwrap();
    repo.branch("release", &c2, true).unwrap();
    repo.branch("stable", &c2, true).unwrap();
}

fn tip(repo: &Repository, name: &str) -> Oid {
    repo.find_branch(name, BranchType::Local)
        .unwrap()
        .get()
        .peel_to_commit()
        .unwrap()
        .id()
}

/// The shape of a history: per commit its tree id and the shapes of its
/// parents, in order. Commit ids are left out on purpose: re-running with a
/// fresh committer timestamp may change them, the trees and the topology
/// may not.
fn shape(repo: &Repository, commit: Oid) -> String {
    let c = repo.find_commit(commit).unwrap();
    let mut out = format!("[{}", c.tree_id());
    for p in c.parent_ids() {
        out.push_str(&shape(repo, p));
    }
    out.push(']');
    out
}

#[test]
fn identical_input_reruns_match_in_trees_and_topology() {
    let (_d1, r1) = new_bare_repo();
    let (_d2, r2) = new_bare_repo();
    build_history(&r1);
    build_history(&r2);

    for repo in [&r1, &r2] {
        backport(BackportArgs {
            repository: repo,
            backup: false,
            branches: vec!["main".to_string(), "release".to_string(), "stable".to_string()],
            edit: NoEdit {},
        })
        .unwrap();
    }

    for name in ["main", "release", "stable"] {
        assert_eq!(shape(&r1, tip(&r1, name)), shape(&r2, tip(&r2, name)));
    }
}
