use vstd::prelude::*;

use crate::chain::ChainItem;
use crate::graph::Graph;
use crate::graph::is_path;
use crate::graph::path_avoids;
use crate::graph::reaches_from;
use crate::graph::mark_reachable;

verus! {

/// `c` is one of the collected commits.
pub open spec fn in_chain(items: Seq<ChainItem>, c: usize) -> bool {
    exists|k: int| 0 <= k < items.len() && (#[trigger] items[k]).node == c
}

/// The barrier holding every collected commit: side walks are cut where they
/// meet the edited chain.
pub open spec fn chain_barrier(items: Seq<ChainItem>, n: nat) -> Seq<bool> {
    Seq::new(n, |c: int| in_chain(items, c as usize))
}

/// `p` is a parent of item `k`'s commit other than the expected one (the
/// next older collected commit). The oldest item has no expected parent:
/// every parent of it is a side parent.
pub open spec fn is_side_parent(g: &Graph, items: Seq<ChainItem>, k: int, p: usize) -> bool {
    &&& g.parents_of(items[k].node as int).contains(p)
    &&& (k + 1 < items.len() ==> p != items[k + 1].node)
}

/// A side walk from item `k` meets `c`: some side parent of `k` reaches `c`
/// without first crossing a collected commit.
pub open spec fn side_reach(
    g: &Graph,
    items: Seq<ChainItem>,
    barrier: Seq<bool>,
    k: int,
    c: usize,
) -> bool {
    exists|p: usize| is_side_parent(g, items, k, p) && reaches_from(g, seq![p], barrier, c)
}

/// The fork entry for `c` after the side walks of the first `m` items: the
/// most senior branch index among the items whose side walks meet `c`.
pub open spec fn fork_val(
    g: &Graph,
    items: Seq<ChainItem>,
    barrier: Seq<bool>,
    c: usize,
    m: int,
) -> Option<usize>
    decreases m,
{
    if m <= 0 {
        None
    } else {
        let rest = fork_val(g, items, barrier, c, m - 1);
        if side_reach(g, items, barrier, m - 1, c) {
            match rest {
                None => Some(items[m - 1].branch),
                Some(v) => Some(
                    if v >= items[m - 1].branch {
                        v
                    } else {
                        items[m - 1].branch
                    },
                ),
            }
        } else {
            rest
        }
    }
}

/// Law: the fork table records a commit met by side walks of several items
/// at the largest (most senior) branch index among them, and records a
/// commit no side walk meets not at all.
pub proof fn lemma_fork_records_max(
    g: &Graph,
    items: Seq<ChainItem>,
    barrier: Seq<bool>,
    c: usize,
    m: int,
)
    requires
        0 <= m <= items.len(),
    ensures
        fork_val(g, items, barrier, c, m) matches Some(v) ==> (exists|k: int|
            0 <= k < m && side_reach(g, items, barrier, k, c) && (#[trigger] items[k]).branch == v)
            && (forall|k: int|
            0 <= k < m && side_reach(g, items, barrier, k, c) ==> (#[trigger] items[k]).branch
                <= v),
        fork_val(g, items, barrier, c, m) is None ==> forall|k: int|
            0 <= k < m ==> !side_reach(g, items, barrier, k, c),
    decreases m,
{
    if m > 0 {
        lemma_fork_records_max(g, items, barrier, c, m - 1);
    }
}

/// Reachability from a set of starts is reachability from one of them.
proof fn lemma_reach_union(g: &Graph, starts: Seq<usize>, barrier: Seq<bool>, c: usize)
    ensures
        reaches_from(g, starts, barrier, c) <==> exists|i: int|
            0 <= i < starts.len() && reaches_from(g, seq![#[trigger] starts[i]], barrier, c),
{
    if reaches_from(g, starts, barrier, c) {
        let q = choose|q: Seq<usize>|
            is_path(g, q) && starts.contains(q[0]) && path_avoids(barrier, q) && q.last() == c;
        let i = choose|i: int| 0 <= i < starts.len() && starts[i] == q[0];
        assert(seq![starts[i]][0] == q[0]);
        assert(seq![starts[i]].contains(q[0]));
        assert(reaches_from(g, seq![starts[i]], barrier, c));
    }
    if exists|i: int| 0 <= i < starts.len() && reaches_from(g, seq![#[trigger] starts[i]], barrier, c) {
        let i = choose|i: int|
            0 <= i < starts.len() && reaches_from(g, seq![#[trigger] starts[i]], barrier, c);
        let q = choose|q: Seq<usize>|
            is_path(g, q) && seq![starts[i]].contains(q[0]) && path_avoids(barrier, q) && q.last()
                == c;
        assert(q[0] == starts[i]);
        assert(starts.contains(q[0]));
        assert(reaches_from(g, starts, barrier, c));
    }
}

/// The side parents of item `k`: its commit's parents with every occurrence
/// of the expected parent removed.
fn side_parents(g: &Graph, items: &Vec<ChainItem>, k: usize) -> (r: Vec<usize>)
    requires
        g.wf(),
        k < items@.len(),
        items@[k as int].node < g.spec_node_count(),
    ensures
        forall|i: int|
            0 <= i < r@.len() ==> is_side_parent(g, items@, k as int, #[trigger] r@[i]) && r@[i]
                < g.spec_node_count(),
        forall|p: usize| is_side_parent(g, items@, k as int, p) ==> r@.contains(p),
{
    let node = items[k].node;
    let ps_len = g.parent_list(node).len();
    let mut r: Vec<usize> = Vec::new();
    let mut j: usize = 0;
    while j < ps_len
        invariant
            g.wf(),
            k < items@.len(),
            node == items@[k as int].node,
            node < g.spec_node_count(),
            ps_len == g.parents_of(node as int).len(),
            j <= ps_len,
            forall|i: int|
                0 <= i < r@.len() ==> is_side_parent(g, items@, k as int, #[trigger] r@[i]) && r@[i]
                    < g.spec_node_count(),
            forall|jj: int|
                0 <= jj < j && (k + 1 < items@.len() ==> g.parents_of(node as int)[jj] != items@[k
                    + 1].node) ==> r@.contains(#[trigger] g.parents_of(node as int)[jj]),
        decreases ps_len - j,
    {
        let p = g.parent_list(node)[j];
        let skip: bool = if k < items.len() - 1 {
            p == items[k + 1].node
        } else {
            false
        };
        if !skip {
            let ghost pre = r@;
            r.push(p);
            proof {
                assert(g.parents_of(node as int).contains(p)) by {
                    assert(g.parents_of(node as int)[j as int] == p);
                }
                assert(is_side_parent(g, items@, k as int, p));
                assert forall|jj: int|
                    0 <= jj < j + 1 && (k + 1 < items@.len() ==> g.parents_of(node as int)[jj]
                        != items@[k + 1].node) implies r@.contains(
                    #[trigger] g.parents_of(node as int)[jj],
                ) by {
                    if jj < j {
                        assert(pre.contains(g.parents_of(node as int)[jj]));
                        let i = choose|i: int|
                            0 <= i < pre.len() && pre[i] == g.parents_of(node as int)[jj];
                        assert(r@[i] == g.parents_of(node as int)[jj]);
                    } else {
                        assert(r@[r@.len() - 1] == p);
                    }
                }
            }
        }
        j += 1;
    }
    proof {
        assert forall|p: usize| is_side_parent(g, items@, k as int, p) implies r@.contains(p) by {
            let jj = choose|jj: int|
                0 <= jj < g.parents_of(node as int).len() && g.parents_of(node as int)[jj] == p;
            assert(r@.contains(g.parents_of(node as int)[jj]));
        }
    }
    r
}

/// The collected commits as a barrier vector.
fn build_chain_barrier(g: &Graph, items: &Vec<ChainItem>) -> (r: Vec<bool>)
    requires
        forall|k: int| 0 <= k < items@.len() ==> (#[trigger] items@[k]).node < g.spec_node_count(),
    ensures
        r@ == chain_barrier(items@, g.spec_node_count()),
{
    let n = g.node_count();
    let mut r = crate::graph::no_barrier_vec(n);
    let mut k: usize = 0;
    while k < items.len()
        invariant
            n == g.spec_node_count(),
            forall|kk: int|
                0 <= kk < items@.len() ==> (#[trigger] items@[kk]).node < n,
            k <= items@.len(),
            r@.len() == n,
            forall|c: int|
                0 <= c < n ==> (r@[c] <==> exists|kk: int|
                    0 <= kk < k && (#[trigger] items@[kk]).node == c),
        decreases items@.len() - k,
    {
        let node = items[k].node;
        let ghost pre = r@;
        r.set(node, true);
        proof {
            assert forall|c: int| 0 <= c < n implies (r@[c] <==> exists|kk: int|
                0 <= kk < k + 1 && (#[trigger] items@[kk]).node == c) by {
                if c == node as int {
                    assert(items@[k as int].node == c);
                } else {
                    assert(r@[c] == pre[c]);
                }
            }
        }
        k += 1;
    }
    proof {
        assert forall|c: int| 0 <= c < n implies r@[c] == chain_barrier(items@, n as nat)[c] by {
            assert(chain_barrier(items@, n as nat)[c] == in_chain(items@, c as usize));
        }
        assert(r@ =~= chain_barrier(items@, n as nat));
    }
    r
}

/// Scans the collected chain for forks: commits that side branches of
/// several collected commits converge on. Each item's parents other than
/// the expected one are walked backward, stopping at collected commits; a
/// collected commit met this way is recorded under the walking item's
/// branch index, the most senior one winning when several walks meet the
/// same commit. Only collected commits are recorded.
pub fn detect_forks(g: &Graph, items: &Vec<ChainItem>) -> (r: Vec<Option<usize>>)
    requires
        g.wf(),
        forall|k: int| 0 <= k < items@.len() ==> (#[trigger] items@[k]).node < g.spec_node_count(),
    ensures
        r@.len() == g.spec_node_count(),
        forall|c: int|
            0 <= c < g.spec_node_count() ==> r@[c] == (if in_chain(items@, c as usize) {
                fork_val(
                    g,
                    items@,
                    chain_barrier(items@, g.spec_node_count()),
                    c as usize,
                    items@.len() as int,
                )
            } else {
                None
            }),
{
    let n = g.node_count();
    let barrier = build_chain_barrier(g, items);
    let mut r: Vec<Option<usize>> = Vec::new();
    let mut i: usize = 0;
    while i < n
        invariant
            i <= n,
            r@.len() == i,
            forall|c: int| 0 <= c < i ==> r@[c] is None,
        decreases n - i,
    {
        r.push(None);
        i += 1;
    }
    proof {
        assert forall|c: int| 0 <= c < n implies r@[c] == (if in_chain(items@, c as usize) {
            fork_val(g, items@, chain_barrier(items@, n as nat), c as usize, 0)
        } else {
            None::<usize>
        }) by {}
    }
    let mut k: usize = 0;
    while k < items.len()
        invariant
            g.wf(),
            n == g.spec_node_count(),
            forall|kk: int|
                0 <= kk < items@.len() ==> (#[trigger] items@[kk]).node < n,
            barrier@ == chain_barrier(items@, n as nat),
            barrier@.len() == n,
            k <= items@.len(),
            r@.len() == n,
            forall|c: int|
                0 <= c < n ==> r@[c] == (if in_chain(items@, c as usize) {
                    fork_val(g, items@, chain_barrier(items@, n as nat), c as usize, k as int)
                } else {
                    None::<usize>
                }),
        decreases items@.len() - k,
    {
        let sp = side_parents(g, items, k);
        let marks = mark_reachable(g, &sp, &barrier);
        proof {
            lemma_reach_union(g, sp@, barrier@, 0usize);
            assert forall|c: usize| c < n implies (marks@[c as int] <==> side_reach(
                g,
                items@,
                barrier@,
                k as int,
                c,
            )) by {
                lemma_reach_union(g, sp@, barrier@, c);
                if marks@[c as int] {
                    let i2 = choose|i2: int|
                        0 <= i2 < sp@.len() && reaches_from(g, seq![sp@[i2]], barrier@, c);
                    assert(is_side_parent(g, items@, k as int, sp@[i2]));
                }
                if side_reach(g, items@, barrier@, k as int, c) {
                    let p = choose|p: usize|
                        is_side_parent(g, items@, k as int, p) && reaches_from(
                            g,
                            seq![p],
                            barrier@,
                            c,
                        );
                    assert(sp@.contains(p));
                    let i2 = choose|i2: int| 0 <= i2 < sp@.len() && sp@[i2] == p;
                    assert(reaches_from(g, seq![sp@[i2]], barrier@, c));
                }
            }
        }
        let br = items[k].branch;
        let mut c: usize = 0;
        while c < n
            invariant
                g.wf(),
                n == g.spec_node_count(),
                forall|kk: int|
                    0 <= kk < items@.len() ==> (#[trigger] items@[kk]).node < n,
                k < items@.len(),
                br == items@[k as int].branch,
                barrier@ == chain_barrier(items@, n as nat),
                marks@.len() == n,
                forall|cc: usize|
                    cc < n ==> (marks@[cc as int] <==> side_reach(
                        g,
                        items@,
                        barrier@,
                        k as int,
                        cc,
                    )),
                c <= n,
                r@.len() == n,
                forall|cc: int|
                    c <= cc < n ==> r@[cc] == (if in_chain(items@, cc as usize) {
                        fork_val(g, items@, chain_barrier(items@, n as nat), cc as usize, k as int)
                    } else {
                        None::<usize>
                    }),
                forall|cc: int|
                    0 <= cc < c ==> r@[cc] == (if in_chain(items@, cc as usize) {
                        fork_val(
                            g,
                            items@,
                            chain_barrier(items@, n as nat),
                            cc as usize,
                            k as int + 1,
                        )
                    } else {
                        None::<usize>
                    }),
            decreases n - c,
        {
            let ghost pre = r@;
            if marks[c] && barrier[c] {
                proof {
                    assert(chain_barrier(items@, n as nat)[c as int] == in_chain(items@, c));
                }
                match r[c] {
                    None => {
                        r.set(c, Some(br));
                    },
                    Some(v) => {
                        if v < br {
                            r.set(c, Some(br));
                        }
                    },
                }
            } else {
                proof {
                    if !marks@[c as int] {
                        assert(!side_reach(g, items@, barrier@, k as int, c));
                    } else {
                        assert(!in_chain(items@, c));
                    }
                }
            }
            proof {
                assert(forall|cc: int| 0 <= cc < n && cc != c ==> r@[cc] == pre[cc]);
            }
            c += 1;
        }
        k += 1;
    }
    r
}

} // verus!
