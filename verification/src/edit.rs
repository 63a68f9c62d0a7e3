use vstd::prelude::*;

use crate::chain::ChainItem;
use crate::error::Error;

verus! {

/// One collected commit as shown to the edit step: its store id, its
/// message, and the branch (seniority index) it is currently assigned to.
pub struct BackportCommit {
    pub commit: Vec<u8>,
    pub message: String,
    pub branch_index: usize,
}

/// The edit protocol: before any store mutation, the collected commits and
/// the branch names are handed to this strategy, which may reassign each
/// commit's target branch by returning (item index, new branch index)
/// events, applied in order with the last event for an index winning.
/// Returning `None` aborts the run before any rewrite has begun.
pub trait EditStrategy {
    fn edit(&mut self, branches: &Vec<String>, items: &Vec<BackportCommit>) -> Option<
        Vec<(usize, usize)>,
    >;
}

/// An edit step that changes nothing.
pub struct NoEdit {}

impl EditStrategy for NoEdit {
    fn edit(&mut self, _branches: &Vec<String>, _items: &Vec<BackportCommit>) -> Option<
        Vec<(usize, usize)>,
    > {
        Some(Vec::new())
    }
}

/// An edit step that applies a fixed list of reassignments.
pub struct ReassignEdits {
    pub events: Vec<(usize, usize)>,
}

impl EditStrategy for ReassignEdits {
    fn edit(&mut self, _branches: &Vec<String>, _items: &Vec<BackportCommit>) -> Option<
        Vec<(usize, usize)>,
    > {
        let mut out: Vec<(usize, usize)> = Vec::new();
        let mut i: usize = 0;
        while i < self.events.len()
            invariant
                i <= self.events@.len(),
                out@ == self.events@.subrange(0, i as int),
            decreases self.events@.len() - i,
        {
            out.push(self.events[i]);
            proof {
                assert(out@ =~= self.events@.subrange(0, i + 1));
            }
            i += 1;
        }
        proof {
            assert(out@ =~= self.events@);
        }
        Some(out)
    }
}

/// The collected items after the first `m` events: each event retargets one
/// item, leaving its commit alone.
pub open spec fn apply_events_spec(
    items: Seq<ChainItem>,
    events: Seq<(usize, usize)>,
    m: int,
) -> Seq<ChainItem>
    decreases m,
{
    if m <= 0 {
        items
    } else {
        let prev = apply_events_spec(items, events, m - 1);
        let i = events[m - 1].0;
        let b = events[m - 1].1;
        prev.update(i as int, ChainItem { node: prev[i as int].node, branch: b })
    }
}

/// Applying events never moves, adds or removes an item: only targets
/// change, and only to branches the events name.
proof fn lemma_apply_events_frame(
    items: Seq<ChainItem>,
    events: Seq<(usize, usize)>,
    m: int,
    branches: usize,
)
    requires
        0 <= m <= events.len(),
        forall|x: int|
            0 <= x < events.len() ==> (#[trigger] events[x]).0 < items.len() && events[x].1
                < branches,
        forall|k: int| 0 <= k < items.len() ==> (#[trigger] items[k]).branch < branches,
    ensures
        apply_events_spec(items, events, m).len() == items.len(),
        forall|k: int|
            0 <= k < items.len() ==> (#[trigger] apply_events_spec(items, events, m)[k]).node
                == items[k].node,
        forall|k: int|
            0 <= k < items.len() ==> (#[trigger] apply_events_spec(items, events, m)[k]).branch
                < branches,
    decreases m,
{
    if m > 0 {
        lemma_apply_events_frame(items, events, m - 1, branches);
    }
}

/// Applies the edit step's reassignment events to the collected items, in
/// order, after checking every event is in range. An out-of-range event
/// leaves the items untouched and reports which event was at fault.
pub fn apply_edits(
    items: &mut Vec<ChainItem>,
    events: &Vec<(usize, usize)>,
    branches: usize,
) -> (r: Result<(), Error>)
    requires
        forall|k: int|
            0 <= k < old(items)@.len() ==> (#[trigger] old(items)@[k]).branch < branches,
    ensures
        match r {
            Ok(()) => {
                &&& final(items)@ == apply_events_spec(
                    old(items)@,
                    events@,
                    events@.len() as int,
                )
                &&& final(items)@.len() == old(items)@.len()
                &&& forall|k: int|
                    0 <= k < old(items)@.len() ==> (#[trigger] final(items)@[k]).node == old(
                        items,
                    )@[k].node
                &&& forall|k: int|
                    0 <= k < old(items)@.len() ==> (#[trigger] final(items)@[k]).branch < branches
            },
            Err(e) => {
                &&& final(items)@ == old(items)@
                &&& e matches Error::InvalidEdit { index, branch }
                &&& (e matches Error::InvalidEdit { index, branch } ==> events@.contains(
                    (index, branch),
                ) && (index >= old(items)@.len() || branch >= branches))
            },
        },
{
    let n = items.len();
    let mut v: usize = 0;
    while v < events.len()
        invariant
            n == items@.len(),
            v <= events@.len(),
            forall|x: int|
                0 <= x < v ==> (#[trigger] events@[x]).0 < n && events@[x].1 < branches,
        decreases events@.len() - v,
    {
        let (i, b) = events[v];
        if i >= n || b >= branches {
            proof {
                assert(events@[v as int] == (i, b));
                assert(events@.contains((i, b)));
            }
            return Err(Error::InvalidEdit { index: i, branch: b });
        }
        v += 1;
    }
    let mut m: usize = 0;
    while m < events.len()
        invariant
            n == items@.len(),
            m <= events@.len(),
            forall|x: int|
                0 <= x < events@.len() ==> (#[trigger] events@[x]).0 < n && events@[x].1
                    < branches,
            forall|k: int|
                0 <= k < old(items)@.len() ==> (#[trigger] old(items)@[k]).branch < branches,
            old(items)@.len() == n,
            items@ == apply_events_spec(old(items)@, events@, m as int),
        decreases events@.len() - m,
    {
        proof {
            lemma_apply_events_frame(old(items)@, events@, m as int, branches);
        }
        let (i, b) = events[m];
        let node = items[i].node;
        items.set(i, ChainItem { node, branch: b });
        m += 1;
    }
    proof {
        lemma_apply_events_frame(old(items)@, events@, events@.len() as int, branches);
    }
    Ok(())
}

} // verus!
