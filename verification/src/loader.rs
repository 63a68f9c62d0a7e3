use vstd::prelude::*;

use crate::error::Error;
use crate::error::StoreOp;
use crate::graph::Graph;
use crate::ids::Interner;
use crate::store;

verus! {

/// An owned copy of an id's bytes.
fn copy_id(v: &Vec<u8>) -> (r: Vec<u8>)
    ensures
        r@ == v@,
{
    let n = v.len();
    let mut r: Vec<u8> = Vec::new();
    let mut k: usize = 0;
    while k < n
        invariant
            n == v@.len(),
            k <= n,
            r@.len() == k,
            forall|x: int| 0 <= x < k ==> r@[x] == v@[x],
        decreases n - k,
    {
        r.push(v[k]);
        k += 1;
    }
    proof {
        assert(r@ =~= v@);
    }
    r
}

/// Adds an id to the table, giving the graph a node for it if it is new, so
/// that graph nodes and table indices stay aligned. The returned index
/// holds exactly the given id.
fn intern_node(it: &mut Interner, g: &mut Graph, id: Vec<u8>) -> (r: usize)
    requires
        old(it).wf(),
        old(g).wf(),
        old(g).spec_node_count() == old(it)@.len(),
    ensures
        final(it).wf(),
        final(g).wf(),
        final(g).spec_node_count() == final(it)@.len(),
        old(it)@.is_prefix_of(final(it)@),
        r < final(it)@.len(),
        final(it)@[r as int] == id@,
        forall|i: int| 0 <= i < old(it)@.len() ==> (#[trigger] final(it)@[i]) == old(it)@[i],
        forall|v: int|
            0 <= v < old(g).spec_node_count() ==> final(g).parents_of(v) == old(g).parents_of(v),
{
    let (i, fresh) = it.intern(id);
    if fresh {
        g.add_node();
    }
    i
}

/// Attaches the parent ids read from the store to node `v`: afterwards,
/// node `v`'s parents are exactly the table indices of the given list, in
/// order, new ids gaining fresh aligned nodes of their own. No other node's
/// parents change.
fn attach_parents(it: &mut Interner, g: &mut Graph, v: usize, parent_ids: Vec<Vec<u8>>) -> (r:
    Result<(), Error>)
    requires
        old(it).wf(),
        old(g).wf(),
        old(g).spec_node_count() == old(it)@.len(),
        v < old(g).spec_node_count(),
    ensures
        final(it).wf(),
        final(g).wf(),
        final(g).spec_node_count() == final(it)@.len(),
        old(it)@.is_prefix_of(final(it)@),
        forall|i: int| 0 <= i < old(it)@.len() ==> (#[trigger] final(it)@[i]) == old(it)@[i],
        r matches Ok(()) ==> final(g).parents_of(v as int).len() == parent_ids@.len() && (forall|
            j: int,
        |
            0 <= j < parent_ids@.len() ==> final(it)@[(#[trigger] final(g).parents_of(
                v as int,
            )[j]) as int] == parent_ids@[j]@),
        r matches Ok(()) ==> forall|w: int|
            0 <= w < old(g).spec_node_count() && w != v ==> final(g).parents_of(w) == old(
                g,
            ).parents_of(w),
        r matches Err(e) ==> e == Error::InternalInvariant,
{
    let ghost orig = parent_ids@;
    let mut rest = parent_ids;
    let mut pidx: Vec<usize> = Vec::new();
    while rest.len() > 0
        invariant
            it.wf(),
            g.wf(),
            g.spec_node_count() == it@.len(),
            v < g.spec_node_count(),
            old(g).spec_node_count() == old(it)@.len(),
            old(it)@.is_prefix_of(it@),
            forall|i: int| 0 <= i < old(it)@.len() ==> (#[trigger] it@[i]) == old(it)@[i],
            forall|w: int|
                0 <= w < old(g).spec_node_count() ==> g.parents_of(w) == old(g).parents_of(w),
            pidx@.len() + rest@.len() == orig.len(),
            rest@ == orig.subrange(pidx@.len() as int, orig.len() as int),
            forall|i: int| 0 <= i < pidx@.len() ==> (#[trigger] pidx@[i]) < it@.len(),
            forall|i: int|
                0 <= i < pidx@.len() ==> it@[(#[trigger] pidx@[i]) as int] == orig[i]@,
        decreases rest@.len(),
    {
        let ghost pre = it@;
        let ghost pre_g = *g;
        let done = pidx.len();
        let id = rest.remove(0);
        proof {
            assert(id@ == orig[done as int]@);
        }
        let i = intern_node(it, g, id);
        proof {
            assert forall|w: int|
                0 <= w < old(g).spec_node_count() implies g.parents_of(w) == old(g).parents_of(
                w,
            ) by {
                assert(pre_g.spec_node_count() == pre.len());
                assert(old(it)@.len() <= pre.len());
                assert(w < pre_g.spec_node_count());
                assert(g.parents_of(w) == pre_g.parents_of(w));
            }
            assert forall|x: int| 0 <= x < pidx@.len() implies (#[trigger] pidx@[x]) < it@.len()
                && it@[pidx@[x] as int] == orig[x]@ by {
                assert(pidx@[x] < pre.len());
                assert(it@[pidx@[x] as int] == pre[pidx@[x] as int]);
            }
            assert(rest@ =~= orig.subrange(pidx@.len() as int + 1, orig.len() as int));
        }
        pidx.push(i);
    }
    let ok = g.set_parents(v, pidx);
    if !ok {
        return Err(Error::InternalInvariant);
    }
    Ok(())
}

/// Reads the commit graph the run will work on: every commit reachable from
/// one of the given tips, each as a node holding its parents' node indices,
/// beside the id table mapping nodes to store ids. Returns the graph, the
/// table, and the tips as node indices, each holding its tip's id.
pub fn load_graph(repo: &git2::Repository, tip_ids: &Vec<Vec<u8>>) -> (r: Result<
    (Graph, Interner, Vec<usize>),
    Error,
>)
    ensures
        r matches Ok(t) ==> {
            &&& t.0.wf()
            &&& t.1.wf()
            &&& t.0.spec_node_count() == t.1@.len()
            &&& t.2@.len() == tip_ids@.len()
            &&& forall|i: int| 0 <= i < t.2@.len() ==> (#[trigger] t.2@[i]) < t.0.spec_node_count()
            &&& forall|i: int|
                0 <= i < t.2@.len() ==> t.1@[t.2@[i] as int] == (#[trigger] tip_ids@[i])@
        },
        r matches Err(e) ==> e == Error::InternalInvariant || (e matches Error::Store {
            op,
            ..
        } && op == StoreOp::ReadCommit),
{
    let mut it = Interner::new();
    let mut g = Graph::new();
    let mut tips: Vec<usize> = Vec::new();
    let mut b: usize = 0;
    while b < tip_ids.len()
        invariant
            it.wf(),
            g.wf(),
            g.spec_node_count() == it@.len(),
            b <= tip_ids@.len(),
            tips@.len() == b,
            forall|i: int| 0 <= i < b ==> (#[trigger] tips@[i]) < it@.len(),
            forall|i: int|
                0 <= i < b ==> it@[(#[trigger] tips@[i]) as int] == tip_ids@[i]@,
        decreases tip_ids@.len() - b,
    {
        let ghost pre = it@;
        let i = intern_node(&mut it, &mut g, copy_id(&tip_ids[b]));
        proof {
            assert forall|x: int| 0 <= x < tips@.len() implies (#[trigger] tips@[x]) < it@.len()
                && it@[tips@[x] as int] == tip_ids@[x]@ by {
                assert(tips@[x] < pre.len());
                assert(it@[tips@[x] as int] == pre[tips@[x] as int]);
            }
        }
        tips.push(i);
        b += 1;
    }
    let mut p: usize = 0;
    while p < it.len()
        invariant
            it.wf(),
            g.wf(),
            g.spec_node_count() == it@.len(),
            p <= it@.len(),
            forall|i: int| 0 <= i < tips@.len() ==> (#[trigger] tips@[i]) < it@.len(),
            forall|i: int|
                0 <= i < tips@.len() ==> it@[(#[trigger] tips@[i]) as int] == tip_ids@[i]@,
            tips@.len() == tip_ids@.len(),
        decreases usize::MAX - p,
    {
        let parent_ids = match store::commit_parents(repo, it.get(p)) {
            Ok(ps) => ps,
            Err(m) => {
                return Err(Error::Store { op: StoreOp::ReadCommit, message: m });
            },
        };
        let ghost pre = it@;
        match attach_parents(&mut it, &mut g, p, parent_ids) {
            Ok(()) => {},
            Err(e) => {
                return Err(e);
            },
        }
        proof {
            assert forall|x: int| 0 <= x < tips@.len() implies (#[trigger] tips@[x]) < it@.len()
                && it@[tips@[x] as int] == tip_ids@[x]@ by {
                assert(tips@[x] < pre.len());
                assert(it@[tips@[x] as int] == pre[tips@[x] as int]);
            }
        }
        p += 1;
    }
    Ok((g, it, tips))
}

} // verus!
