use vstd::prelude::*;

use crate::error::Error;
use crate::graph::Graph;
use crate::graph::is_path;
use crate::graph::reaches;
use crate::graph::reaches_from;
use crate::graph::mark_reachable;

verus! {

/// One collected commit: a node of the graph and the branch (seniority
/// index) it is currently assigned to. The collected sequence is newest
/// first; the edit step may change `branch`, nothing else.
#[derive(Clone, Copy, Debug, PartialEq, Eq, Structural)]
pub struct ChainItem {
    pub node: usize,
    pub branch: usize,
}

/// The commit the walk moved to after including item `k`: the next collected
/// item, or, after the oldest item, the most senior region's tip.
pub open spec fn chain_next(items: Seq<ChainItem>, tips: Seq<usize>, k: int) -> usize {
    if k + 1 < items.len() {
        items[k + 1].node
    } else {
        tips[items[k].branch + 1]
    }
}

/// The ancestry of the walk's chosen parent, as a barrier: a competing
/// parent reaches `stop` independently only if it can get there without
/// passing through any of the chosen parent's ancestry (the shared `stop`
/// itself aside).
pub open spec fn chosen_barrier(g: &Graph, chosen: usize, stop: usize) -> Seq<bool> {
    Seq::new(g.spec_node_count(), |x: int| reaches(g, chosen, x as usize) && x != stop)
}

/// `p` reaches `stop` by a route of its own, touching none of the chosen
/// parent's ancestry.
pub open spec fn indep_reaches(g: &Graph, p: usize, stop: usize, chosen: usize) -> bool {
    reaches_from(g, seq![p], chosen_barrier(g, chosen, stop), stop)
}

/// The walk may step from `c` to its parent `nxt` while looking for `stop`:
/// an only parent is followed as it is; among several parents, `nxt` must be
/// the last-listed one whose ancestry reaches `stop` (merged-in branches are
/// listed last), and no other parent may reach `stop` independently of it.
#[verifier::opaque]
pub open spec fn step_to(g: &Graph, c: usize, stop: usize, nxt: usize) -> bool {
    let ps = g.parents_of(c as int);
    &&& ps.contains(nxt)
    &&& (ps.len() == 1 ==> ps[0] == nxt)
    &&& (ps.len() != 1 ==> exists|i: int|
        0 <= i < ps.len() && ps[i] == nxt && reaches(g, nxt, stop) && (forall|j: int|
            i < j < ps.len() ==> !reaches(g, #[trigger] ps[j], stop)) && (forall|j: int|
            0 <= j < ps.len() && j != i ==> !indep_reaches(g, #[trigger] ps[j], stop, nxt)))
}

/// Item `k` of a collected chain is sound: it is not the stopping tip of its
/// branch pair, and the walk stepped from it by the parent-selection rule.
pub open spec fn chain_step_ok(g: &Graph, items: Seq<ChainItem>, tips: Seq<usize>, k: int) -> bool {
    let it = items[k];
    &&& it.node != tips[it.branch + 1]
    &&& step_to(g, it.node, tips[it.branch + 1], chain_next(items, tips, k))
}

/// The walk cannot step from `c` towards `stop`: either no parent's
/// ancestry reaches `stop` at all, or a second parent reaches it
/// independently of the chosen (last-listed reaching) one, so the walk
/// cannot know which side is the line being edited.
#[verifier::opaque]
pub open spec fn ambiguous_at(g: &Graph, c: usize, stop: usize) -> bool {
    let ps = g.parents_of(c as int);
    &&& ps.len() != 1
    &&& ((forall|j: int| 0 <= j < ps.len() ==> !reaches(g, #[trigger] ps[j], stop)) || (exists|
        i: int,
        j: int,
    |
        0 <= i < ps.len() && reaches(g, ps[i], stop) && (forall|jj: int|
            i < jj < ps.len() ==> !reaches(g, #[trigger] ps[jj], stop)) && 0 <= j < ps.len() && j
            != i && #[trigger] indep_reaches(g, ps[j], stop, ps[i])))
}

/// Everything collected with all branch pairs below `b` walked: items lie
/// below `b`, are linked by sound steps, run junior to senior, open each
/// segment at its branch's tip, skip a pair only where its two tips are
/// equal, and the oldest item's pending step leads to `tips[b]`.
pub open spec fn collected_prefix_ok(
    g: &Graph,
    tips: Seq<usize>,
    items: Seq<ChainItem>,
    b: int,
) -> bool {
    &&& forall|k: int|
        0 <= k < items.len() ==> (#[trigger] items[k]).node < g.spec_node_count()
            && items[k].branch < b && items[k].node != tips[items[k].branch + 1]
    &&& forall|k: int| 0 <= k < items.len() - 1 ==> chain_step_ok(g, items, tips, k)
    &&& forall|j: int, k: int|
        #![trigger items[j], items[k]]
        0 <= j && k == j + 1 && k < items.len() ==> items[k].branch >= items[j].branch && (
        items[j].branch < items[k].branch ==> items[k].node == tips[items[k].branch as int])
    &&& (items.len() > 0 ==> items[0].node == tips[items[0].branch as int])
    &&& forall|bb: int|
        0 <= bb < b && (forall|k: int|
            0 <= k < items.len() ==> (#[trigger] items[k]).branch != bb) ==> (
        #[trigger] tips[bb]) == tips[bb + 1]
    &&& items.len() > 0 ==> {
        let last = items[items.len() - 1];
        &&& step_to(g, last.node, tips[last.branch + 1], tips[b])
        &&& tips[b] == tips[last.branch + 1]
    }
}

/// Decides whether `stop` can be reached from `p` without crossing a
/// barrier node.
fn single_reaches(g: &Graph, p: usize, barrier: &Vec<bool>, stop: usize) -> (r: bool)
    requires
        g.wf(),
        p < g.spec_node_count(),
        stop < g.spec_node_count(),
        barrier@.len() == g.spec_node_count(),
    ensures
        r == reaches_from(g, seq![p], barrier@, stop),
{
    let mut sv: Vec<usize> = Vec::new();
    sv.push(p);
    let marks = mark_reachable(g, &sv, barrier);
    proof {
        assert(sv@ =~= seq![p]);
    }
    marks[stop]
}

/// Decides whether parent `p` reaches `stop`.
fn parent_reaches(g: &Graph, p: usize, stop: usize) -> (r: bool)
    requires
        g.wf(),
        p < g.spec_node_count(),
        stop < g.spec_node_count(),
    ensures
        r == reaches(g, p, stop),
{
    let nb = crate::graph::no_barrier_vec(g.node_count());
    single_reaches(g, p, &nb, stop)
}

/// Scans the parents of a commit with several (or zero) parents for the
/// walk's next step: the last-listed parent whose ancestry reaches `stop`.
/// `None` means the step is ambiguous: no parent reaches `stop`, or a
/// second parent reaches it independently of the chosen one.
fn select_parent(g: &Graph, cur: usize, stop: usize) -> (r: Option<usize>)
    requires
        g.wf(),
        cur < g.spec_node_count(),
        stop < g.spec_node_count(),
        g.parents_of(cur as int).len() != 1,
    ensures
        match r {
            Some(nxt) => nxt < g.spec_node_count() && step_to(g, cur, stop, nxt),
            None => ambiguous_at(g, cur, stop),
        },
{
    let n = g.node_count();
    let ps_len = g.parent_list(cur).len();
    let mut found_any = false;
    let mut cpos: usize = 0;
    let mut j: usize = 0;
    while j < ps_len
        invariant
            g.wf(),
            cur < n,
            stop < n,
            n == g.spec_node_count(),
            ps_len == g.parents_of(cur as int).len(),
            j <= ps_len,
            found_any ==> cpos < j && reaches(g, g.parents_of(cur as int)[cpos as int], stop) && (
            forall|jj: int|
                cpos < jj < j ==> !reaches(g, #[trigger] g.parents_of(cur as int)[jj], stop)),
            !found_any ==> forall|jj: int|
                0 <= jj < j ==> !reaches(g, #[trigger] g.parents_of(cur as int)[jj], stop),
        decreases ps_len - j,
    {
        let p = g.parent_list(cur)[j];
        if parent_reaches(g, p, stop) {
            found_any = true;
            cpos = j;
        }
        j += 1;
    }
    if !found_any {
        proof {
            reveal(crate::chain::ambiguous_at);
        }
        return None;
    }
    let chosen = g.parent_list(cur)[cpos];
    let nb = crate::graph::no_barrier_vec(n);
    let mut cv: Vec<usize> = Vec::new();
    cv.push(chosen);
    let amarks = mark_reachable(g, &cv, &nb);
    proof {
        assert(cv@ =~= seq![chosen]);
    }
    let mut barrier: Vec<bool> = Vec::new();
    let mut x: usize = 0;
    while x < n
        invariant
            n == g.spec_node_count(),
            amarks@.len() == n,
            forall|c: int|
                0 <= c < n ==> (amarks@[c] <==> reaches_from(
                    g,
                    seq![chosen],
                    crate::graph::no_barrier(n as nat),
                    c as usize,
                )),
            x <= n,
            barrier@.len() == x,
            forall|c: int|
                0 <= c < x ==> barrier@[c] == (reaches(g, chosen, c as usize) && c != stop),
        decreases n - x,
    {
        barrier.push(amarks[x] && x != stop);
        x += 1;
    }
    proof {
        assert(barrier@ =~= chosen_barrier(g, chosen, stop));
    }
    let mut j2: usize = 0;
    while j2 < ps_len
        invariant
            g.wf(),
            cur < n,
            stop < n,
            n == g.spec_node_count(),
            ps_len == g.parents_of(cur as int).len(),
            cpos < ps_len,
            chosen == g.parents_of(cur as int)[cpos as int],
            chosen < n,
            reaches(g, chosen, stop),
            forall|jj: int|
                cpos < jj < ps_len ==> !reaches(g, #[trigger] g.parents_of(cur as int)[jj], stop),
            barrier@ == chosen_barrier(g, chosen, stop),
            barrier@.len() == n,
            j2 <= ps_len,
            forall|jj: int|
                0 <= jj < j2 && jj != cpos ==> !indep_reaches(
                    g,
                    #[trigger] g.parents_of(cur as int)[jj],
                    stop,
                    chosen,
                ),
        decreases ps_len - j2,
    {
        if j2 != cpos {
            let p = g.parent_list(cur)[j2];
            if single_reaches(g, p, &barrier, stop) {
                proof {
                    reveal(crate::chain::ambiguous_at);
                    assert(indep_reaches(g, g.parents_of(cur as int)[j2 as int], stop, chosen));
                }
                return None;
            }
        }
        j2 += 1;
    }
    proof {
        reveal(crate::chain::step_to);
        assert(g.parents_of(cur as int)[cpos as int] == chosen);
        assert(g.parents_of(cur as int).contains(chosen));
    }
    Some(chosen)
}

/// The standing facts of the pair walk: what has been collected while pair
/// `b` is being walked and the walk stands at `cur`, with `seg0` items from
/// earlier pairs.
pub open spec fn walk_state_ok(
    g: &Graph,
    tips: Seq<usize>,
    items: Seq<ChainItem>,
    b: usize,
    seg0: int,
    cur: usize,
) -> bool {
    &&& 0 <= seg0 <= items.len()
    &&& cur < g.spec_node_count()
    &&& forall|k: int|
        0 <= k < items.len() ==> (#[trigger] items[k]).node < g.spec_node_count()
            && items[k].branch <= b && items[k].node != tips[items[k].branch + 1]
    &&& forall|k: int| 0 <= k < seg0 ==> (#[trigger] items[k]).branch < b
    &&& forall|k: int| seg0 <= k < items.len() ==> (#[trigger] items[k]).branch == b
    &&& (items.len() > seg0 ==> items[seg0].node == tips[b as int])
    &&& forall|k: int| 0 <= k < items.len() - 1 ==> chain_step_ok(g, items, tips, k)
    &&& forall|j: int, k: int|
        #![trigger items[j], items[k]]
        0 <= j && k == j + 1 && k < items.len() ==> items[k].branch >= items[j].branch && (
        items[j].branch < items[k].branch ==> items[k].node == tips[items[k].branch as int])
    &&& (items.len() > 0 ==> items[0].node == tips[items[0].branch as int])
    &&& forall|bb: int|
        0 <= bb < b && (forall|k: int|
            0 <= k < items.len() ==> (#[trigger] items[k]).branch != bb) ==> (
        #[trigger] tips[bb]) == tips[bb + 1]
    &&& (items.len() > 0 ==> step_to(
        g,
        items[items.len() - 1].node,
        tips[items[items.len() - 1].branch + 1],
        cur,
    ))
    &&& (items.len() == seg0 ==> cur == tips[b as int])
    &&& (items.len() > 0 && items.len() == seg0 ==> tips[b as int] == tips[items[items.len()
        - 1].branch + 1])
}

/// Including `cur` and stepping on to `nxt` keeps the walk facts standing.
proof fn lemma_walk_push(
    g: &Graph,
    tips: Seq<usize>,
    pre: Seq<ChainItem>,
    post: Seq<ChainItem>,
    b: usize,
    seg0: int,
    cur: usize,
    nxt: usize,
)
    requires
        g.wf(),
        tips.len() >= 2,
        b < tips.len() - 1,
        walk_state_ok(g, tips, pre, b, seg0, cur),
        cur != tips[b + 1],
        nxt < g.spec_node_count(),
        step_to(g, cur, tips[b + 1], nxt),
        post == pre.push(ChainItem { node: cur, branch: b }),
    ensures
        walk_state_ok(g, tips, post, b, seg0, nxt),
{
    let newlen = post.len();
    assert(post[newlen - 1] == ChainItem { node: cur, branch: b });
    assert(forall|k: int| 0 <= k < pre.len() ==> post[k] == pre[k]);
    assert forall|k: int| 0 <= k < newlen - 1 implies chain_step_ok(g, post, tips, k) by {
        if k < pre.len() - 1 {
            assert(chain_step_ok(g, pre, tips, k));
            assert(chain_next(post, tips, k) == chain_next(pre, tips, k));
        } else {
            let last = pre[pre.len() - 1];
            assert(step_to(g, last.node, tips[last.branch + 1], cur));
            assert(chain_next(post, tips, k) == cur);
        }
    }
    assert forall|j: int, k: int|
        0 <= j && k == j + 1 && k < newlen implies post[k].branch >= post[j].branch && (
    post[j].branch < post[k].branch ==> post[k].node == tips[post[k].branch as int]) by {
        if k < pre.len() {
            assert(pre[k].branch >= pre[j].branch);
            assert(pre[j].branch < pre[k].branch ==> pre[k].node == tips[pre[k].branch as int]);
        } else {
            assert(post[j].branch <= b);
            if post[j].branch < b {
                assert(pre[j].branch < b);
                assert(pre.len() == seg0);
                assert(cur == tips[b as int]);
            }
        }
    }
    if pre.len() == 0 {
        assert(seg0 == 0);
        assert(cur == tips[b as int]);
        assert(post[0].node == tips[post[0].branch as int]);
    }
    assert forall|bb: int|
        0 <= bb < b && (forall|k: int|
            0 <= k < post.len() ==> (#[trigger] post[k]).branch != bb) implies (
    #[trigger] tips[bb]) == tips[bb + 1] by {
        assert(forall|k: int| 0 <= k < pre.len() ==> (#[trigger] pre[k]).branch != bb);
    }
}

/// Opening pair `b` at its junior tip keeps the collected facts standing.
proof fn lemma_walk_entry(
    g: &Graph,
    tips: Seq<usize>,
    items: Seq<ChainItem>,
    b: usize,
    seg0: int,
    cur: usize,
)
    requires
        g.wf(),
        tips.len() >= 2,
        b < tips.len() - 1,
        forall|i: int| 0 <= i < tips.len() ==> (#[trigger] tips[i]) < g.spec_node_count(),
        collected_prefix_ok(g, tips, items, b as int),
        cur == tips[b as int],
        seg0 == items.len(),
    ensures
        walk_state_ok(g, tips, items, b, seg0, cur),
{
}

/// Meeting the senior tip closes pair `b`: the collected facts now stand for
/// every pair below `b + 1`.
proof fn lemma_walk_exit(
    g: &Graph,
    tips: Seq<usize>,
    items: Seq<ChainItem>,
    b: usize,
    seg0: int,
    cur: usize,
)
    requires
        g.wf(),
        tips.len() >= 2,
        b < tips.len() - 1,
        walk_state_ok(g, tips, items, b, seg0, cur),
        cur == tips[b + 1],
    ensures
        collected_prefix_ok(g, tips, items, b + 1),
{
    assert forall|bb: int|
        0 <= bb < b + 1 && (forall|k: int|
            0 <= k < items.len() ==> (#[trigger] items[k]).branch != bb) implies (
    #[trigger] tips[bb]) == tips[bb + 1] by {
        if bb == b {
            if items.len() > seg0 {
                assert(items[seg0].branch == b);
                assert(false);
            } else {
                assert(cur == tips[b as int]);
            }
        }
    }
    if items.len() > 0 {
        let last = items[items.len() - 1];
        if items.len() > seg0 {
            assert(last.branch == b);
            assert(step_to(g, last.node, tips[last.branch + 1], cur));
        } else {
            assert(cur == tips[b as int]);
            assert(tips[b as int] == tips[last.branch + 1]);
        }
        assert(step_to(g, last.node, tips[last.branch + 1], tips[b + 1]));
        assert(tips[b + 1] == tips[last.branch + 1]);
    }
}

/// Walks one branch pair backward from `tips[b]` until `tips[b + 1]` is met,
/// appending every commit passed to `items` with branch index `b`.
fn walk_pair(g: &Graph, tips: &Vec<usize>, b: usize, items: &mut Vec<ChainItem>) -> (r: Result<
    (),
    Error,
>)
    requires
        g.wf(),
        forall|i: int| 0 <= i < tips@.len() ==> (#[trigger] tips@[i]) < g.spec_node_count(),
        tips@.len() >= 2,
        b < tips@.len() - 1,
        collected_prefix_ok(g, tips@, old(items)@, b as int),
    ensures
        match r {
            Ok(()) => collected_prefix_ok(g, tips@, final(items)@, b + 1),
            Err(e) => {
                &&& (e matches Error::AmbiguousAncestor { commit, branch } ==> branch == b
                    && commit < g.spec_node_count() && commit != tips@[b + 1] && ambiguous_at(
                    g,
                    commit,
                    tips@[b + 1],
                ))
                &&& (e == Error::CyclicHistory ==> exists|w: Seq<usize>|
                    is_path(g, w) && w.len() == g.spec_node_count() + 1)
                &&& (e matches Error::AmbiguousAncestor { .. } || e == Error::CyclicHistory)
            },
        },
{
    let n = g.node_count();
    let tcount = tips.len();
    let stop = tips[b + 1];
    let mut cur = tips[b];
    let ghost seg0 = items@.len() as int;
    let ghost mut trail: Seq<usize> = seq![cur];
    proof {
        lemma_walk_entry(g, tips@, items@, b, seg0, cur);
        assert(is_path(g, trail));
    }
    let mut fuel: usize = n;
    while cur != stop
        invariant
            g.wf(),
            n == g.spec_node_count(),
            tips@.len() >= 2,
            forall|i: int| 0 <= i < tips@.len() ==> (#[trigger] tips@[i]) < n,
            b < tips@.len() - 1,
            stop == tips@[b + 1],
            fuel <= n,
            walk_state_ok(g, tips@, items@, b, seg0, cur),
            is_path(g, trail),
            trail.len() == n - fuel + 1,
            trail.last() == cur,
        decreases fuel,
    {
        if fuel == 0 {
            proof {
                assert(trail.len() == g.spec_node_count() + 1);
            }
            return Err(Error::CyclicHistory);
        }
        fuel = fuel - 1;
        let ps_len = g.parent_list(cur).len();
        let nxt: usize;
        if ps_len == 1 {
            nxt = g.parent_list(cur)[0];
            proof {
                reveal(crate::chain::step_to);
                assert(g.parents_of(cur as int).contains(g.parents_of(cur as int)[0]));
                assert(nxt < g.spec_node_count());
                assert(step_to(g, cur, stop, nxt));
            }
        } else {
            match select_parent(g, cur, stop) {
                Some(p) => {
                    nxt = p;
                },
                None => {
                    return Err(Error::AmbiguousAncestor { commit: cur, branch: b });
                },
            }
        }
        let ghost pre_items = items@;
        items.push(ChainItem { node: cur, branch: b });
        proof {
            lemma_walk_push(g, tips@, pre_items, items@, b, seg0, cur, nxt);
            reveal(crate::chain::step_to);
            assert(g.parents_of(cur as int).contains(nxt));
            let pre_trail = trail;
            trail = trail.push(nxt);
            assert(forall|i: int| 0 <= i < pre_trail.len() ==> trail[i] == pre_trail[i]);
            assert(trail[trail.len() - 1] == nxt);
            assert(is_path(g, trail)) by {
                assert forall|i: int|
                    0 <= i < trail.len() - 1 implies g.parents_of(trail[i] as int).contains(
                    trail[i + 1],
                ) by {
                    if i < pre_trail.len() - 1 {
                        assert(g.parents_of(pre_trail[i] as int).contains(pre_trail[i + 1]));
                    } else {
                        assert(trail[i] == cur);
                    }
                }
            }
        }
        cur = nxt;
    }
    proof {
        lemma_walk_exit(g, tips@, items@, b, seg0, cur);
    }
    Ok(())
}

/// Once every pair is walked, the oldest item's step is sound too: its
/// pending step leads to the most senior tip.
#[verifier::rlimit(100)]
proof fn lemma_chain_complete(g: &Graph, tips: Seq<usize>, items: Seq<ChainItem>)
    requires
        g.wf(),
        tips.len() >= 2,
        collected_prefix_ok(g, tips, items, tips.len() - 1),
    ensures
        forall|k: int| 0 <= k < items.len() ==> chain_step_ok(g, items, tips, k),
{
    if items.len() > 0 {
        let last = items[items.len() - 1];
        assert(step_to(g, last.node, tips[last.branch + 1], tips[tips.len() - 1]));
        assert(tips[tips.len() - 1] == tips[last.branch + 1]);
        assert(chain_next(items, tips, items.len() - 1) == tips[last.branch + 1]);
        assert(chain_step_ok(g, items, tips, items.len() - 1));
    }
}

/// Walks each adjacent branch pair's history backward from the junior tip,
/// collecting every commit until the senior tip is met (the tip itself is
/// not included). A commit with one parent is followed as it is; among
/// several parents exactly one must have the senior tip in its ancestry, or
/// the chain is ambiguous and the run aborts. The result is newest first,
/// head segment first, each item carrying its branch pair index.
#[verifier::rlimit(100)]
pub fn collect_chain(g: &Graph, tips: &Vec<usize>) -> (r: Result<Vec<ChainItem>, Error>)
    requires
        g.wf(),
        forall|i: int| 0 <= i < tips@.len() ==> (#[trigger] tips@[i]) < g.spec_node_count(),
    ensures
        match r {
            Ok(items) => {
                &&& tips@.len() >= 2
                &&& collected_prefix_ok(g, tips@, items@, tips@.len() - 1)
                &&& forall|k: int| 0 <= k < items@.len() ==> chain_step_ok(g, items@, tips@, k)
            },
            Err(e) => {
                &&& (e == Error::EmptyBranchChain <==> tips@.len() < 2)
                &&& (e matches Error::AmbiguousAncestor { commit, branch } ==> branch + 1
                    < tips@.len() && commit < g.spec_node_count() && commit != tips@[branch + 1]
                    && ambiguous_at(g, commit, tips@[branch + 1]))
                &&& (e == Error::CyclicHistory ==> exists|w: Seq<usize>|
                    is_path(g, w) && w.len() == g.spec_node_count() + 1)
                &&& (e matches Error::AmbiguousAncestor { .. } || e == Error::CyclicHistory || e
                    == Error::EmptyBranchChain)
            },
        },
{
    if tips.len() < 2 {
        return Err(Error::EmptyBranchChain);
    }
    let nb_minus_1 = tips.len() - 1;
    let mut items: Vec<ChainItem> = Vec::new();
    let mut b: usize = 0;
    while b < nb_minus_1
        invariant
            g.wf(),
            forall|i: int| 0 <= i < tips@.len() ==> (#[trigger] tips@[i]) < g.spec_node_count(),
            tips@.len() >= 2,
            nb_minus_1 == tips@.len() - 1,
            b <= nb_minus_1,
            collected_prefix_ok(g, tips@, items@, b as int),
        decreases nb_minus_1 - b,
    {
        match walk_pair(g, tips, b, &mut items) {
            Ok(()) => {},
            Err(e) => {
                return Err(e);
            },
        }
        b += 1;
    }
    proof {
        lemma_chain_complete(g, tips@, items@);
    }
    Ok(items)
}

} // verus!
