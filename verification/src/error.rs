use vstd::prelude::*;

verus! {

/// The store operation during which a failure was reported.
#[derive(Debug, Clone, Copy, PartialEq, Eq)]
pub enum StoreOp {
    /// Resolving a branch name to its tip commit.
    ResolveBranch,
    /// Reading a commit's parents or message.
    ReadCommit,
    /// A three-way tree merge.
    Merge,
    /// A cherry-pick onto a branch head.
    CherryPick,
    /// Writing a new commit object.
    WriteCommit,
    /// Force-updating a branch reference.
    UpdateRef,
    /// Creating a backup branch.
    Backup,
    /// Querying the working-tree status.
    Status,
}

/// Every way a run can fail. Any error terminates the run; branch references
/// are only updated as the very last step, so an error before that leaves all
/// branches untouched.
#[derive(Debug, Clone, PartialEq, Eq)]
pub enum Error {
    /// The working tree has uncommitted, unstaged or ignored-but-present
    /// changes; the run refuses to start.
    NotClean,
    /// Fewer than two branches were given: there is no ancestor to backport to.
    EmptyBranchChain,
    /// A commit on the walked history has several parents of which not exactly
    /// one reaches the next senior branch's tip, so the walk cannot know which
    /// side is the line being edited. `commit` is the node index of that
    /// commit, `branch` the branch pair being walked.
    AmbiguousAncestor { commit: usize, branch: usize },
    /// The edit step handed back a reassignment whose item index or branch
    /// index is out of range.
    InvalidEdit { index: usize, branch: usize },
    /// The edit step signalled an abort before the rewrite began.
    EditAborted,
    /// The commit graph read from the store contains a cycle.
    CyclicHistory,
    /// A store operation failed (merge or cherry-pick conflict, read or write
    /// failure). The message is the store's own description.
    Store { op: StoreOp, message: String },
    /// An internal bookkeeping invariant was violated (a duplicate map key, a
    /// missing head): an algorithm bug, never expected in correct operation.
    InternalInvariant,
    /// A parent outside the edited region has rewritten ancestors of its own;
    /// remapping such a parent is not supported.
    UnsupportedParentRewrite { commit: usize },
}

impl Error {
    /// The description `message` returns for each variant.
    pub open spec fn spec_message(&self) -> Seq<char> {
        match self {
            Error::NotClean => "the working tree is not clean; commit or stash all changes first"@,
            Error::EmptyBranchChain => "no ancestor branches were given; nothing to backport to"@,
            Error::AmbiguousAncestor {
                ..
            } => "ambiguous parents: the next senior tip must be reachable via exactly one parent"@,
            Error::InvalidEdit { .. } => "the edit step returned an out-of-range reassignment"@,
            Error::EditAborted => "the edit step aborted the run"@,
            Error::CyclicHistory => "the commit graph contains a cycle"@,
            Error::Store { message, .. } => "store operation failed: "@ + message@,
            Error::InternalInvariant => "internal invariant violated; this is a bug"@,
            Error::UnsupportedParentRewrite {
                ..
            } => "a side parent's own ancestry was rewritten; remapping it is not supported"@,
        }
    }

    /// A user-legible description of the error.
    pub fn message(&self) -> (r: String)
        ensures
            r@ == self.spec_message(),
            r@.len() > 0,
    {
        proof {
            reveal_strlit("the working tree is not clean; commit or stash all changes first");
            reveal_strlit("no ancestor branches were given; nothing to backport to");
            reveal_strlit(
                "ambiguous parents: the next senior tip must be reachable via exactly one parent",
            );
            reveal_strlit("the edit step returned an out-of-range reassignment");
            reveal_strlit("the edit step aborted the run");
            reveal_strlit("the commit graph contains a cycle");
            reveal_strlit("store operation failed: ");
            reveal_strlit("internal invariant violated; this is a bug");
            reveal_strlit(
                "a side parent's own ancestry was rewritten; remapping it is not supported",
            );
        }
        match self {
            Error::NotClean => String::from_str(
                "the working tree is not clean; commit or stash all changes first",
            ),
            Error::EmptyBranchChain => String::from_str(
                "no ancestor branches were given; nothing to backport to",
            ),
            Error::AmbiguousAncestor { .. } => String::from_str(
                "ambiguous parents: the next senior tip must be reachable via exactly one parent",
            ),
            Error::InvalidEdit { .. } => String::from_str(
                "the edit step returned an out-of-range reassignment",
            ),
            Error::EditAborted => String::from_str("the edit step aborted the run"),
            Error::CyclicHistory => String::from_str("the commit graph contains a cycle"),
            Error::Store { message, .. } => {
                String::from_str("store operation failed: ").concat(message.as_str())
            },
            Error::InternalInvariant => String::from_str(
                "internal invariant violated; this is a bug",
            ),
            Error::UnsupportedParentRewrite { .. } => String::from_str(
                "a side parent's own ancestry was rewritten; remapping it is not supported",
            ),
        }
    }
}

} // verus!
