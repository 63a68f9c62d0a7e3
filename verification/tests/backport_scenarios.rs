use git2::BranchType;
use git2::Oid;
use git2::Repository;
use git2::Signature;
use git2::Time;
use git_backport::BackportArgs;
use git_backport::BackportCommit;
use git_backport::EditStrategy;
use git_backport::Error;
use git_backport::NoEdit;
use git_backport::ReassignEdits;
use git_backport::StoreOp;
use git_backport::backport;

fn new_bare_repo() -> (tempfile::TempDir, Repository) {
    let dir = tempfile::tempdir().unwrap();
    let repo = Repository::init_bare(dir.path()).unwrap();
    let mut cfg = repo.config().unwrap();
    cfg.set_str("user.name", "tester").unwrap();
    cfg.set_str("user.email", "tester@example.com").unwrap();
    (dir, repo)
}

fn sig(t: i64) -> Signature<'static> {
    Signature::new("tester", "tester@example.com", &Time::new(t, 0)).unwrap()
}

fn commit_with(
    repo: &Repository,
    parents: &[Oid],
    files: &[(&str, &str)],
    msg: &str,
    t: i64,
) -> Oid {
    let mut tb = match parents.first() {
        Some(p) => {
            let base = repo.find_commit(*p).unwrap().tree().unwrap();
            repo.treebuilder(Some(&base)).unwrap()
        },
        None => repo.treebuilder(None).unwrap(),
    };
    for (name, content) in files {
        let blob = repo.blob(content.as_bytes()).unwrap();
        tb.insert(*name, blob, 0o100644).unwrap();
    }
    let tree = repo.find_tree(tb.write().unwrap()).unwrap();
    let pcommits: Vec<git2::Commit> =
        parents.iter().map(|p| repo.find_commit(*p).unwrap()).collect();
    let prefs: Vec<&git2::Commit> = pcommits.iter().collect();
    let s = sig(t);
    repo.commit(None, &s, &s, msg, &tree, &prefs).unwrap()
}

fn put_branch(repo: &Repository, name: &str, target: Oid) {
    let c = repo.find_commit(target).unwrap();
    repo.branch(name, &c, true).unwrap();
}

fn tip(repo: &Repository, name: &str) -> Oid {
    repo.find_branch(name, BranchType::Local)
        .unwrap()
        .get()
        .peel_to_commit()
        .unwrap()
        .id()
}

fn file_text(repo: &Repository, commit: Oid, name: &str) -> Option<String> {
    let tree = repo.find_commit(commit).unwrap().tree().unwrap();
    let entry = tree.get_name(name)?;
    let blob = repo.find_blob(entry.id()).unwrap();
    Some(String::from_utf8(blob.content().to_vec()).unwrap())
}

fn is_ancestor(repo: &Repository, anc: Oid, desc: Oid) -> bool {
    anc == desc || repo.graph_descendant_of(desc, anc).unwrap()
}

struct Aborter {}

impl EditStrategy for Aborter {
    fn edit(
        &mut self,
        _branches: &Vec<String>,
        _items: &Vec<BackportCommit>,
    ) -> Option<Vec<(usize, usize)>> {
        None
    }
}

#[test]
fn three_branch_no_edit_is_pure_merge_forward() {
    let (_dir, repo) = new_bare_repo();
    let s = commit_with(&repo, &[], &[("base.txt", "base")], "base", 100);
    let b = commit_with(&repo, &[s], &[("b.txt", "b")], "B", 101);
    let a = commit_with(&repo, &[b], &[("a.txt", "a")], "A", 102);
    put_branch(&repo, "main", a);
    put_branch(&repo, "release", s);
    put_branch(&repo, "stable", s);

    backport(BackportArgs {
        repository: &repo,
        backup: false,
        branches: vec!["main".to_string(), "release".to_string(), "stable".to_string()],
        edit: NoEdit {},
    })
    .unwrap();

    assert_eq!(tip(&repo, "stable"), s);
    let rel = tip(&repo, "release");
    let main = tip(&repo, "main");
    assert!(is_ancestor(&repo, rel, main));
    assert!(is_ancestor(&repo, s, main));
    assert_eq!(file_text(&repo, main, "a.txt").as_deref(), Some("a"));
    assert_eq!(file_text(&repo, main, "b.txt").as_deref(), Some("b"));
    assert_eq!(file_text(&repo, main, "base.txt").as_deref(), Some("base"));
    assert_eq!(file_text(&repo, rel, "a.txt"), None);
    assert_eq!(file_text(&repo, rel, "b.txt"), None);
}

#[test]
fn reassigning_to_senior_moves_change_down() {
    let (_dir, repo) = new_bare_repo();
    let s = commit_with(&repo, &[], &[("base.txt", "base")], "base", 100);
    let b = commit_with(&repo, &[s], &[("b.txt", "b")], "B", 101);
    let a = commit_with(&repo, &[b], &[("a.txt", "a")], "A", 102);
    put_branch(&repo, "main", a);
    put_branch(&repo, "stable", s);

    backport(BackportArgs {
        repository: &repo,
        backup: false,
        branches: vec!["main".to_string(), "stable".to_string()],
        // the newest collected commit (A, index 0) goes to the senior branch
        edit: ReassignEdits { events: vec![(0, 1)] },
    })
    .unwrap();

    let stable = tip(&repo, "stable");
    let main = tip(&repo, "main");
    assert_eq!(file_text(&repo, stable, "a.txt").as_deref(), Some("a"));
    assert_eq!(file_text(&repo, stable, "b.txt"), None);
    assert_eq!(file_text(&repo, main, "a.txt").as_deref(), Some("a"));
    assert_eq!(file_text(&repo, main, "b.txt").as_deref(), Some("b"));
    assert!(is_ancestor(&repo, stable, main));
}

#[test]
fn reassigning_to_junior_lifts_change_off_senior() {
    let (_dir, repo) = new_bare_repo();
    let s = commit_with(&repo, &[], &[("base.txt", "base")], "base", 100);
    let r1 = commit_with(&repo, &[s], &[("r1.txt", "r1")], "R1", 101);
    put_branch(&repo, "main", r1);
    put_branch(&repo, "release", r1);
    put_branch(&repo, "stable", s);

    backport(BackportArgs {
        repository: &repo,
        backup: false,
        branches: vec!["main".to_string(), "release".to_string(), "stable".to_string()],
        // the only collected commit (R1) becomes a main-only commit
        edit: ReassignEdits { events: vec![(0, 0)] },
    })
    .unwrap();

    assert_eq!(tip(&repo, "stable"), s);
    let release = tip(&repo, "release");
    let main = tip(&repo, "main");
    assert_eq!(file_text(&repo, release, "r1.txt"), None);
    assert_eq!(file_text(&repo, main, "r1.txt").as_deref(), Some("r1"));
}

#[test]
fn merge_on_chain_follows_merged_in_branch_and_reconverges() {
    let (_dir, repo) = new_bare_repo();
    let s = commit_with(&repo, &[], &[("base.txt", "base")], "base", 100);
    let c = commit_with(&repo, &[s], &[("c.txt", "c")], "C", 101);
    let b = commit_with(&repo, &[c], &[("b.txt", "b")], "B", 102);
    let x = commit_with(&repo, &[c], &[("x.txt", "x")], "X", 103);
    let m = commit_with(&repo, &[b, x], &[("x.txt", "x"), ("b.txt", "b")], "M", 104);
    put_branch(&repo, "main", m);
    put_branch(&repo, "stable", s);

    backport(BackportArgs {
        repository: &repo,
        backup: false,
        branches: vec!["main".to_string(), "stable".to_string()],
        edit: NoEdit {},
    })
    .unwrap();

    let main = tip(&repo, "main");
    assert_eq!(file_text(&repo, main, "x.txt").as_deref(), Some("x"));
    assert_eq!(file_text(&repo, main, "b.txt").as_deref(), Some("b"));
    assert_eq!(file_text(&repo, main, "c.txt").as_deref(), Some("c"));
    assert_eq!(file_text(&repo, main, "base.txt").as_deref(), Some("base"));
    assert_eq!(tip(&repo, "stable"), s);
}

#[test]
fn rewritten_ancestry_of_side_parent_is_unsupported() {
    let (_dir, repo) = new_bare_repo();
    let s = commit_with(&repo, &[], &[("base.txt", "base")], "base", 100);
    let c0 = commit_with(&repo, &[s], &[("c0.txt", "c0")], "C0", 101);
    let c = commit_with(&repo, &[c0], &[("c.txt", "c")], "C", 102);
    let b = commit_with(&repo, &[c], &[("b.txt", "b")], "B", 103);
    let d = commit_with(&repo, &[c], &[("d.txt", "d")], "D", 104);
    let m = commit_with(&repo, &[d, b], &[("d.txt", "d"), ("b.txt", "b")], "M", 105);
    put_branch(&repo, "main", m);
    put_branch(&repo, "stable", s);
    let old_main = tip(&repo, "main");

    // the side parent D hangs off C, which the rewrite replaces; remapping
    // such a parent is an explicit unsupported case, never guessed at
    let r = backport(BackportArgs {
        repository: &repo,
        backup: false,
        branches: vec!["main".to_string(), "stable".to_string()],
        edit: NoEdit {},
    });
    assert!(matches!(r, Err(Error::UnsupportedParentRewrite { .. })));
    assert_eq!(tip(&repo, "main"), old_main);
    assert_eq!(tip(&repo, "stable"), s);
}

#[test]
fn independent_double_reach_raises_ambiguous() {
    let (_dir, repo) = new_bare_repo();
    let s = commit_with(&repo, &[], &[("base.txt", "base")], "base", 100);
    let x = commit_with(&repo, &[s], &[("x.txt", "x")], "X", 101);
    let y = commit_with(&repo, &[s], &[("y.txt", "y")], "Y", 102);
    let m = commit_with(&repo, &[x, y], &[("x.txt", "x"), ("y.txt", "y")], "M", 103);
    put_branch(&repo, "main", m);
    put_branch(&repo, "stable", s);
    let old_main = tip(&repo, "main");

    let r = backport(BackportArgs {
        repository: &repo,
        backup: false,
        branches: vec!["main".to_string(), "stable".to_string()],
        edit: NoEdit {},
    });
    assert!(matches!(r, Err(Error::AmbiguousAncestor { .. })));
    assert_eq!(tip(&repo, "main"), old_main);
    assert_eq!(tip(&repo, "stable"), s);
}

#[test]
fn empty_branch_chain_is_refused() {
    let (_dir, repo) = new_bare_repo();
    let s = commit_with(&repo, &[], &[("base.txt", "base")], "base", 100);
    put_branch(&repo, "main", s);
    let r = backport(BackportArgs {
        repository: &repo,
        backup: false,
        branches: vec!["main".to_string()],
        edit: NoEdit {},
    });
    assert_eq!(r, Err(Error::EmptyBranchChain));
}

#[test]
fn unknown_branch_is_a_store_error() {
    let (_dir, repo) = new_bare_repo();
    let s = commit_with(&repo, &[], &[("base.txt", "base")], "base", 100);
    put_branch(&repo, "main", s);
    let r = backport(BackportArgs {
        repository: &repo,
        backup: false,
        branches: vec!["main".to_string(), "no-such-branch".to_string()],
        edit: NoEdit {},
    });
    match r {
        Err(Error::Store { op, .. }) => assert_eq!(op, StoreOp::ResolveBranch),
        other => panic!("expected a store error, got {:?}", other),
    }
}

#[test]
fn equal_tips_mean_nothing_to_do() {
    let (_dir, repo) = new_bare_repo();
    let s = commit_with(&repo, &[], &[("base.txt", "base")], "base", 100);
    put_branch(&repo, "main", s);
    put_branch(&repo, "stable", s);
    backport(BackportArgs {
        repository: &repo,
        backup: false,
        branches: vec!["main".to_string(), "stable".to_string()],
        edit: NoEdit {},
    })
    .unwrap();
    assert_eq!(tip(&repo, "main"), s);
    assert_eq!(tip(&repo, "stable"), s);
}

#[test]
fn nothing_to_do_still_takes_backups() {
    let (_dir, repo) = new_bare_repo();
    let s = commit_with(&repo, &[], &[("base.txt", "base")], "base", 100);
    put_branch(&repo, "main", s);
    put_branch(&repo, "stable", s);
    backport(BackportArgs {
        repository: &repo,
        backup: true,
        branches: vec!["main".to_string(), "stable".to_string()],
        edit: NoEdit {},
    })
    .unwrap();
    assert_eq!(tip(&repo, "main"), s);
    assert_eq!(tip(&repo, "stable"), s);
    assert_eq!(tip(&repo, "git-backport-backup/main"), s);
    assert_eq!(tip(&repo, "git-backport-backup/stable"), s);
}

#[test]
fn aborting_the_edit_stops_the_run() {
    let (_dir, repo) = new_bare_repo();
    let s = commit_with(&repo, &[], &[("base.txt", "base")], "base", 100);
    let a = commit_with(&repo, &[s], &[("a.txt", "a")], "A", 101);
    put_branch(&repo, "main", a);
    put_branch(&repo, "stable", s);
    let r = backport(BackportArgs {
        repository: &repo,
        backup: false,
        branches: vec!["main".to_string(), "stable".to_string()],
        edit: Aborter {},
    });
    assert_eq!(r, Err(Error::EditAborted));
    assert_eq!(tip(&repo, "main"), a);
    assert_eq!(tip(&repo, "stable"), s);
}

#[test]
fn out_of_range_edit_is_refused() {
    let (_dir, repo) = new_bare_repo();
    let s = commit_with(&repo, &[], &[("base.txt", "base")], "base", 100);
    let a = commit_with(&repo, &[s], &[("a.txt", "a")], "A", 101);
    put_branch(&repo, "main", a);
    put_branch(&repo, "stable", s);
    let r = backport(BackportArgs {
        repository: &repo,
        backup: false,
        branches: vec!["main".to_string(), "stable".to_string()],
        edit: ReassignEdits { events: vec![(0, 7)] },
    });
    assert_eq!(r, Err(Error::InvalidEdit { index: 0, branch: 7 }));
    assert_eq!(tip(&repo, "main"), a);
}

#[test]
fn backup_snapshots_old_tips_without_overwriting() {
    let (_dir, repo) = new_bare_repo();
    let s = commit_with(&repo, &[], &[("base.txt", "base")], "base", 100);
    let a = commit_with(&repo, &[s], &[("a.txt", "a")], "A", 101);
    put_branch(&repo, "main", a);
    put_branch(&repo, "stable", s);
    // a taken backup name: the run must fall back to a numbered one
    put_branch(&repo, "git-backport-backup/main", s);

    backport(BackportArgs {
        repository: &repo,
        backup: true,
        branches: vec!["main".to_string(), "stable".to_string()],
        edit: NoEdit {},
    })
    .unwrap();

    assert_eq!(tip(&repo, "git-backport-backup/main"), s);
    assert_eq!(tip(&repo, "git-backport-backup/main-1"), a);
    assert_eq!(tip(&repo, "git-backport-backup/stable"), s);
}

#[test]
fn untracked_file_refuses_run_and_touches_nothing() {
    let dir = tempfile::tempdir().unwrap();
    let repo = Repository::init(dir.path()).unwrap();
    let mut cfg = repo.config().unwrap();
    cfg.set_str("user.name", "tester").unwrap();
    cfg.set_str("user.email", "tester@example.com").unwrap();
    let s = commit_with(&repo, &[], &[("base.txt", "base")], "base", 100);
    let a = commit_with(&repo, &[s], &[("a.txt", "a")], "A", 101);
    put_branch(&repo, "main", a);
    put_branch(&repo, "stable", s);
    repo.set_head("refs/heads/main").unwrap();
    repo.checkout_head(Some(git2::build::CheckoutBuilder::new().force())).unwrap();

    let _stray = tempfile::Builder::new()
        .prefix("stray")
        .suffix(".txt")
        .tempfile_in(dir.path())
        .unwrap();

    let r = backport(BackportArgs {
        repository: &repo,
        backup: false,
        branches: vec!["main".to_string(), "stable".to_string()],
        edit: NoEdit {},
    });
    assert_eq!(r, Err(Error::NotClean));
    assert_eq!(tip(&repo, "main"), a);
    assert_eq!(tip(&repo, "stable"), s);
}

#[test]
fn clean_worktree_is_accepted() {
    let dir = tempfile::tempdir().unwrap();
    let repo = Repository::init(dir.path()).unwrap();
    let mut cfg = repo.config().unwrap();
    cfg.set_str("user.name", "tester").unwrap();
    cfg.set_str("user.email", "tester@example.com").unwrap();
    let s = commit_with(&repo, &[], &[("base.txt", "base")], "base", 100);
    let a = commit_with(&repo, &[s], &[("a.txt", "a")], "A", 101);
    put_branch(&repo, "main", a);
    put_branch(&repo, "stable", s);
    repo.set_head("refs/heads/main").unwrap();
    repo.checkout_head(Some(git2::build::CheckoutBuilder::new().force())).unwrap();

    backport(BackportArgs {
        repository: &repo,
        backup: false,
        branches: vec!["main".to_string(), "stable".to_string()],
        edit: NoEdit {},
    })
    .unwrap();
    let main = tip(&repo, "main");
    assert_eq!(file_text(&repo, main, "a.txt").as_deref(), Some("a"));
}
