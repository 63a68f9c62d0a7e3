use vstd::prelude::*;

verus! {

#[verifier::external_type_specification]
#[verifier::external_body]
pub struct ExRepository(git2::Repository);

/// Relies on git2's Repository::is_bare: whether the repository has no
/// working tree.
#[verifier::external_body]
pub(crate) fn repo_is_bare(repo: &git2::Repository) -> bool {
    repo.is_bare()
}

/// Relies on git2's Repository::statuses: whether the working tree carries
/// no uncommitted, unstaged, untracked or ignored-but-present change. The
/// error value is the store's own message.
#[verifier::external_body]
pub(crate) fn workdir_clean(repo: &git2::Repository) -> Result<bool, String> {
    let go = || -> Result<bool, git2::Error> {
        let mut opts = git2::StatusOptions::new();
        opts.include_untracked(true).recurse_untracked_dirs(true);
        opts.include_ignored(true).recurse_ignored_dirs(true);
        Ok(repo.statuses(Some(&mut opts))?.is_empty())
    };
    go().map_err(|e| e.message().to_string())
}

/// Relies on git2's Repository::find_branch and Reference::peel_to_commit:
/// the id of the commit a local branch points at.
#[verifier::external_body]
pub(crate) fn branch_tip(repo: &git2::Repository, name: &str) -> Result<Vec<u8>, String> {
    let go = || -> Result<Vec<u8>, git2::Error> {
        let branch = repo.find_branch(name, git2::BranchType::Local)?;
        Ok(branch.get().peel_to_commit()?.id().as_bytes().to_vec())
    };
    go().map_err(|e| e.message().to_string())
}

/// Relies on git2's Commit::parent_ids: the ids of a commit's parents, in
/// the store's parent order.
#[verifier::external_body]
pub(crate) fn commit_parents(repo: &git2::Repository, id: &Vec<u8>) -> Result<
    Vec<Vec<u8>>,
    String,
> {
    let go = || -> Result<Vec<Vec<u8>>, git2::Error> {
        let commit = repo.find_commit(git2::Oid::from_bytes(id)?)?;
        let mut out = Vec::new();
        for p in commit.parent_ids() {
            out.push(p.as_bytes().to_vec());
        }
        Ok(out)
    };
    go().map_err(|e| e.message().to_string())
}

/// Relies on git2's Commit::message: a commit's message as text.
#[verifier::external_body]
pub(crate) fn commit_message_text(repo: &git2::Repository, id: &Vec<u8>) -> Result<
    String,
    String,
> {
    let go = || -> Result<String, git2::Error> {
        let commit = repo.find_commit(git2::Oid::from_bytes(id)?)?;
        Ok(commit.message()?.to_string())
    };
    go().map_err(|e| e.message().to_string())
}

/// Relies on git2's Repository::merge_commits with renames detected,
/// conflicts fatal and minimal diffs: the tree of the three-way merge of the
/// two commits, written to the store.
#[verifier::external_body]
pub(crate) fn merge_tree_of(repo: &git2::Repository, ours: &Vec<u8>, theirs: &Vec<u8>) -> Result<
    Vec<u8>,
    String,
> {
    let go = || -> Result<Vec<u8>, git2::Error> {
        let a = repo.find_commit(git2::Oid::from_bytes(ours)?)?;
        let b = repo.find_commit(git2::Oid::from_bytes(theirs)?)?;
        let mut opts = git2::MergeOptions::new();
        opts.find_renames(true).fail_on_conflict(true).minimal(true);
        Ok(repo.merge_commits(&a, &b, Some(&opts))?.write_tree_to(repo)?.as_bytes().to_vec())
    };
    go().map_err(|e| e.message().to_string())
}

/// Relies on git2's Repository::cherrypick_commit with the same merge
/// options: the tree of the commit's change replayed onto `onto`, using
/// parent `mainline` as the diff base, written to the store.
#[verifier::external_body]
pub(crate) fn cherrypick_tree_of(
    repo: &git2::Repository,
    commit: &Vec<u8>,
    onto: &Vec<u8>,
    mainline: u32,
) -> Result<Vec<u8>, String> {
    let go = || -> Result<Vec<u8>, git2::Error> {
        let c = repo.find_commit(git2::Oid::from_bytes(commit)?)?;
        let base = repo.find_commit(git2::Oid::from_bytes(onto)?)?;
        let mut opts = git2::MergeOptions::new();
        opts.find_renames(true).fail_on_conflict(true).minimal(true);
        Ok(repo.cherrypick_commit(&c, &base, mainline, Some(&opts))?.write_tree_to(
            repo,
        )?.as_bytes().to_vec())
    };
    go().map_err(|e| e.message().to_string())
}

/// Relies on git2's Repository::commit: writes a commit carrying the
/// original commit's author and message verbatim, the run's own committer
/// identity, the given tree and the given parents; returns the new id.
#[verifier::external_body]
pub(crate) fn create_picked_commit(
    repo: &git2::Repository,
    original: &Vec<u8>,
    tree: &Vec<u8>,
    parents: &Vec<Vec<u8>>,
) -> Result<Vec<u8>, String> {
    let go = || -> Result<Vec<u8>, git2::Error> {
        let orig = repo.find_commit(git2::Oid::from_bytes(original)?)?;
        let tree = repo.find_tree(git2::Oid::from_bytes(tree)?)?;
        let mut ps = Vec::new();
        for p in parents.iter() {
            ps.push(repo.find_commit(git2::Oid::from_bytes(p)?)?);
        }
        let prefs: Vec<&git2::Commit> = ps.iter().collect();
        let sig = repo.signature()?;
        let author = orig.author();
        let id = repo.commit(None, &author, &sig, orig.message()?, &tree, &prefs)?;
        Ok(id.as_bytes().to_vec())
    };
    go().map_err(|e| e.message().to_string())
}

/// Relies on git2's Repository::commit: writes a merge commit with the
/// run's identity as author and committer, the given message and tree, and
/// the two given parents in order; returns the new id.
#[verifier::external_body]
pub(crate) fn create_merge_commit(
    repo: &git2::Repository,
    message: &str,
    tree: &Vec<u8>,
    ours: &Vec<u8>,
    theirs: &Vec<u8>,
) -> Result<Vec<u8>, String> {
    let go = || -> Result<Vec<u8>, git2::Error> {
        let a = repo.find_commit(git2::Oid::from_bytes(ours)?)?;
        let b = repo.find_commit(git2::Oid::from_bytes(theirs)?)?;
        let tree = repo.find_tree(git2::Oid::from_bytes(tree)?)?;
        let sig = repo.signature()?;
        Ok(repo.commit(None, &sig, &sig, message, &tree, &[&a, &b])?.as_bytes().to_vec())
    };
    go().map_err(|e| e.message().to_string())
}

/// Relies on git2's Repository::reference with force: points the named
/// local branch at the given commit, creating or moving it (also when it is
/// the checked-out branch).
#[verifier::external_body]
pub(crate) fn set_branch(repo: &git2::Repository, name: &str, target: &Vec<u8>) -> Result<
    (),
    String,
> {
    let go = || -> Result<(), git2::Error> {
        let oid = git2::Oid::from_bytes(target)?;
        let refname = format!("refs/heads/{}", name);
        repo.reference(&refname, oid, true, "backport: update branch")?;
        Ok(())
    };
    go().map_err(|e| e.message().to_string())
}

/// Relies on git2's Repository::branch without force: tries to create the
/// named branch at the given commit; false when the name is already taken
/// (or the store refuses it), and nothing is overwritten.
#[verifier::external_body]
pub(crate) fn try_create_branch(repo: &git2::Repository, name: &str, target: &Vec<u8>) -> Result<
    bool,
    String,
> {
    let go = || -> Result<bool, git2::Error> {
        let commit = repo.find_commit(git2::Oid::from_bytes(target)?)?;
        Ok(repo.branch(name, &commit, false).is_ok())
    };
    go().map_err(|e| e.message().to_string())
}

} // verus!
