use vstd::prelude::*;

use crate::backup::backup_branches;
use crate::chain::collect_chain;
use crate::edit::BackportCommit;
use crate::edit::EditStrategy;
use crate::edit::apply_edits;
use crate::engine::rewrite_history;
use crate::error::Error;
use crate::error::StoreOp;
use crate::forks::detect_forks;
use crate::loader::load_graph;
use crate::store;

verus! {

/// Everything one run needs: the repository, whether to snapshot the
/// branches first, the branch names from the junior head (index 0) down to
/// the most senior ancestor, and the edit step that may reassign the
/// collected commits.
pub struct BackportArgs<'a, E: EditStrategy> {
    pub repository: &'a git2::Repository,
    pub backup: bool,
    pub branches: Vec<String>,
    pub edit: E,
}

/// The pre-flight decision on the working tree, for every answer the status
/// query can give: a clean tree lets the run go on, a dirty one is refused
/// before anything is read or written, and a failed query is surfaced as a
/// store error.
pub fn clean_guard(status: Result<bool, String>) -> (r: Result<(), Error>)
    ensures
        r is Ok <==> status == Ok::<bool, String>(true),
        status == Ok::<bool, String>(false) ==> r == Err::<(), Error>(Error::NotClean),
        status matches Err(m) ==> r == Err::<(), Error>(
            Error::Store { op: StoreOp::Status, message: m },
        ),
        r matches Err(e) ==> e == Error::NotClean || (e matches Error::Store { op, .. } && op
            == StoreOp::Status),
{
    match status {
        Ok(true) => Ok(()),
        Ok(false) => Err(Error::NotClean),
        Err(m) => Err(Error::Store { op: StoreOp::Status, message: m }),
    }
}

/// Backports commits along the branch chain: refuses a dirty working tree,
/// collects every commit between adjacent branch tips, lets the edit step
/// reassign each one's target branch, scans for side-chain forks, optionally
/// snapshots the branches, rewrites history so that each branch holds
/// exactly its assigned commits plus everything merged forward from every
/// more senior branch, and only then force-updates the branch refs to the
/// new heads. Any failure before that last step leaves every branch
/// untouched.
pub fn backport<'a, E: EditStrategy>(args: BackportArgs<'a, E>) -> (r: Result<(), Error>)
    ensures
        r == Err::<(), Error>(Error::EmptyBranchChain) <==> args.branches@.len() < 2,
        !args.backup ==> !(r matches Err(Error::Store { op, .. }) && op == StoreOp::Backup),
{
    let BackportArgs { repository, backup, branches, mut edit } = args;
    if branches.len() < 2 {
        return Err(Error::EmptyBranchChain);
    }
    if !store::repo_is_bare(repository) {
        match clean_guard(store::workdir_clean(repository)) {
            Ok(()) => {},
            Err(e) => {
                return Err(e);
            },
        }
    }
    let mut tip_bytes: Vec<Vec<u8>> = Vec::new();
    let mut b: usize = 0;
    while b < branches.len()
        invariant
            args.branches@.len() >= 2,
            b <= branches@.len(),
            tip_bytes@.len() == b,
        decreases branches@.len() - b,
    {
        match store::branch_tip(repository, branches[b].as_str()) {
            Ok(t) => {
                tip_bytes.push(t);
            },
            Err(m) => {
                return Err(Error::Store { op: StoreOp::ResolveBranch, message: m });
            },
        }
        b += 1;
    }
    let (mut g, mut it, tips) = match load_graph(repository, &tip_bytes) {
        Ok(t) => t,
        Err(e) => {
            return Err(e);
        },
    };
    let mut items = match collect_chain(&g, &tips) {
        Ok(i) => i,
        Err(e) => {
            return Err(e);
        },
    };
    let mut views: Vec<BackportCommit> = Vec::new();
    let mut k: usize = 0;
    while k < items.len()
        invariant
            args.branches@.len() >= 2,
            g.wf(),
            it.wf(),
            g.spec_node_count() == it@.len(),
            forall|x: int|
                0 <= x < items@.len() ==> (#[trigger] items@[x]).node < g.spec_node_count(),
            k <= items@.len(),
            views@.len() == k,
            forall|x: int|
                0 <= x < k ==> (#[trigger] views@[x]).commit@ == it@[items@[x].node as int]
                    && views@[x].branch_index == items@[x].branch,
        decreases items@.len() - k,
    {
        let message = match store::commit_message_text(repository, it.get(items[k].node)) {
            Ok(m) => m,
            Err(m) => {
                return Err(Error::Store { op: StoreOp::ReadCommit, message: m });
            },
        };
        views.push(
            BackportCommit {
                commit: it.get_owned(items[k].node),
                message,
                branch_index: items[k].branch,
            },
        );
        k += 1;
    }
    let events = match edit.edit(&branches, &views) {
        Some(ev) => ev,
        None => {
            return Err(Error::EditAborted);
        },
    };
    match apply_edits(&mut items, &events, branches.len()) {
        Ok(()) => {},
        Err(e) => {
            return Err(e);
        },
    }
    let forks = detect_forks(&g, &items);
    if backup {
        match backup_branches(repository, &branches, &tip_bytes) {
            Ok(()) => {},
            Err(e) => {
                return Err(e);
            },
        }
    }
    if items.len() == 0 {
        return Ok(());
    }
    let heads = match rewrite_history(repository, &mut g, &mut it, &items, &forks, &branches, &tips)
    {
        Ok(h) => h,
        Err(e) => {
            return Err(e);
        },
    };
    let mut j: usize = 0;
    while j < branches.len()
        invariant
            args.branches@.len() >= 2,
            it.wf(),
            heads@.len() == branches@.len(),
            forall|x: int| 0 <= x < heads@.len() ==> (#[trigger] heads@[x]) < it@.len(),
            j <= branches@.len(),
        decreases branches@.len() - j,
    {
        match store::set_branch(repository, branches[j].as_str(), it.get(heads[j])) {
            Ok(()) => {},
            Err(m) => {
                return Err(Error::Store { op: StoreOp::UpdateRef, message: m });
            },
        }
        j += 1;
    }
    Ok(())
}

} // verus!
