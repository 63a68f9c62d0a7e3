use vstd::prelude::*;

verus! {

/// How many entries of a boolean sequence are set.
pub closed spec fn count_true(s: Seq<bool>) -> nat
    decreases s.len(),
{
    if s.len() == 0 {
        0
    } else {
        count_true(s.drop_last()) + if s.last() {
            1nat
        } else {
            0nat
        }
    }
}

proof fn lemma_count_true_le_len(s: Seq<bool>)
    ensures
        count_true(s) <= s.len(),
    decreases s.len(),
{
    if s.len() > 0 {
        lemma_count_true_le_len(s.drop_last());
    }
}

proof fn lemma_count_true_zero(s: Seq<bool>)
    requires
        forall|i: int| 0 <= i < s.len() ==> !s[i],
    ensures
        count_true(s) == 0,
    decreases s.len(),
{
    if s.len() > 0 {
        lemma_count_true_zero(s.drop_last());
    }
}

proof fn lemma_count_true_set(s: Seq<bool>, i: int)
    requires
        0 <= i < s.len(),
        !s[i],
    ensures
        count_true(s.update(i, true)) == count_true(s) + 1,
    decreases s.len(),
{
    let t = s.update(i, true);
    if i == s.len() - 1 {
        assert(t.drop_last() =~= s.drop_last());
    } else {
        assert(t.drop_last() =~= s.drop_last().update(i, true));
        lemma_count_true_set(s.drop_last(), i);
    }
}

proof fn lemma_contains_push<A>(s: Seq<A>, x: A, y: A)
    requires
        s.contains(y) || y == x,
    ensures
        s.push(x).contains(y),
{
    if s.contains(y) {
        let i = choose|i: int| 0 <= i < s.len() && s[i] == y;
        assert(s.push(x)[i] == y);
    } else {
        assert(s.push(x)[s.len() as int] == y);
    }
}

/// The commit graph the run works on: every commit seen in the store is a
/// node (its dense index from the id table), and each node lists the indices
/// of its parent commits, in the store's parent order.
pub struct Graph {
    parents: Vec<Vec<usize>>,
}

impl Graph {
    /// The number of nodes.
    pub closed spec fn spec_node_count(&self) -> nat {
        self.parents@.len()
    }

    /// The parent list of node `v`.
    pub closed spec fn parents_of(&self, v: int) -> Seq<usize> {
        self.parents@[v]@
    }

    /// Every parent index points at a node of the graph.
    pub open spec fn wf(&self) -> bool {
        forall|v: int, k: int|
            0 <= v < self.spec_node_count() && 0 <= k < self.parents_of(v).len()
                ==> (#[trigger] self.parents_of(v)[k]) < self.spec_node_count()
    }

    pub fn new() -> (r: Graph)
        ensures
            r.spec_node_count() == 0,
            r.wf(),
    {
        Graph { parents: Vec::new() }
    }

    pub fn node_count(&self) -> (r: usize)
        ensures
            r == self.spec_node_count(),
    {
        self.parents.len()
    }

    /// Adds a node with no parents yet and returns its index.
    pub fn add_node(&mut self) -> (r: usize)
        ensures
            r == old(self).spec_node_count(),
            final(self).spec_node_count() == old(self).spec_node_count() + 1,
            final(self).parents_of(r as int).len() == 0,
            forall|v: int|
                0 <= v < old(self).spec_node_count() ==> final(self).parents_of(v) == old(
                    self,
                ).parents_of(v),
            old(self).wf() ==> final(self).wf(),
    {
        let ghost pre = *self;
        let r = self.parents.len();
        self.parents.push(Vec::new());
        proof {
            assert(forall|v: int|
                0 <= v < pre.spec_node_count() ==> self.parents_of(v) == pre.parents_of(v));
            if pre.wf() {
                assert forall|v: int, k: int|
                    0 <= v < self.spec_node_count() && 0 <= k < self.parents_of(v).len() implies (
                self.parents_of(v)[k]) < self.spec_node_count() by {
                    if v < pre.spec_node_count() {
                        assert(pre.parents_of(v)[k] < pre.spec_node_count());
                    }
                }
            }
        }
        r
    }

    /// Replaces the parent list of node `v`. Returns false (and changes
    /// nothing) when `v` or one of the new parents is out of range.
    pub fn set_parents(&mut self, v: usize, ps: Vec<usize>) -> (ok: bool)
        ensures
            final(self).spec_node_count() == old(self).spec_node_count(),
            ok ==> final(self).parents_of(v as int) == ps@,
            ok ==> forall|w: int|
                0 <= w < old(self).spec_node_count() && w != v ==> final(self).parents_of(w) == old(
                    self,
                ).parents_of(w),
            !ok ==> *final(self) == *old(self),
            old(self).wf() ==> final(self).wf(),
    {
        let ghost pre = *self;
        if v >= self.parents.len() {
            return false;
        }
        let n = self.parents.len();
        let mut k: usize = 0;
        while k < ps.len()
            invariant
                n == self.spec_node_count(),
                k <= ps@.len(),
                forall|i: int| 0 <= i < k ==> ps@[i] < n,
            decreases ps@.len() - k,
        {
            if ps[k] >= n {
                return false;
            }
            k += 1;
        }
        self.parents.set(v, ps);
        proof {
            assert(forall|w: int|
                0 <= w < pre.spec_node_count() && w != v ==> self.parents_of(w) == pre.parents_of(
                    w,
                ));
            assert(self.parents_of(v as int) == ps@);
            if pre.wf() {
                assert forall|w: int, j: int|
                    0 <= w < self.spec_node_count() && 0 <= j < self.parents_of(w).len() implies (
                self.parents_of(w)[j]) < self.spec_node_count() by {
                    if w != v {
                        assert(pre.parents_of(w)[j] < pre.spec_node_count());
                    }
                }
            }
        }
        true
    }

    /// Node `b` is `a` itself or lies in `a`'s ancestry.
    pub open spec fn reaches_node(&self, a: usize, b: usize) -> bool {
        reaches(self, a, b)
    }

    /// The parent list of a node.
    pub fn parent_list(&self, v: usize) -> (r: &Vec<usize>)
        requires
            v < self.spec_node_count(),
        ensures
            r@ == self.parents_of(v as int),
    {
        &self.parents[v]
    }
}

/// `q` is a walk through the graph: non-empty, inside the node range, and
/// each element is followed by one of its parents.
pub open spec fn is_path(g: &Graph, q: Seq<usize>) -> bool {
    &&& q.len() >= 1
    &&& forall|i: int| 0 <= i < q.len() ==> (#[trigger] q[i]) < g.spec_node_count()
    &&& forall|i: int|
        0 <= i < q.len() - 1 ==> g.parents_of(q[i] as int).contains(#[trigger] q[i + 1])
}

/// No node of `q` that the walk continues past is a barrier node (the last
/// node may be one: a walk may arrive at a barrier, never cross it).
pub open spec fn path_avoids(barrier: Seq<bool>, q: Seq<usize>) -> bool {
    forall|i: int| 0 <= i < q.len() - 1 ==> !barrier[(#[trigger] q[i]) as int]
}

/// Node `c` can be reached from one of `starts` by following parent edges
/// without crossing a barrier node.
pub open spec fn reaches_from(g: &Graph, starts: Seq<usize>, barrier: Seq<bool>, c: usize) -> bool {
    exists|q: Seq<usize>|
        is_path(g, q) && starts.contains(q[0]) && path_avoids(barrier, q) && q.last() == c
}

/// An all-false barrier: plain reachability.
pub open spec fn no_barrier(n: nat) -> Seq<bool> {
    Seq::new(n, |i: int| false)
}

/// Node `b` is `a` itself or an ancestor of `a`.
pub open spec fn reaches(g: &Graph, a: usize, b: usize) -> bool {
    reaches_from(g, seq![a], no_barrier(g.spec_node_count()), b)
}

/// Every node is its own ancestor.
pub proof fn lemma_reaches_self(g: &Graph, a: usize)
    requires
        a < g.spec_node_count(),
    ensures
        reaches(g, a, a),
{
    let q = seq![a];
    assert(q.len() == 1 && q[0] == a && q.last() == a);
    assert(is_path(g, q));
    assert(seq![a].contains(a));
    assert(path_avoids(no_barrier(g.spec_node_count()), q));
}

/// Ancestry extends along a parent edge.
pub proof fn lemma_reaches_step(g: &Graph, a: usize, x: usize, p: usize)
    requires
        g.wf(),
        a < g.spec_node_count(),
        reaches(g, a, x),
        g.parents_of(x as int).contains(p),
        p < g.spec_node_count(),
    ensures
        reaches(g, a, p),
{
    let nb = no_barrier(g.spec_node_count());
    let q = choose|q: Seq<usize>|
        is_path(g, q) && seq![a].contains(q[0]) && path_avoids(nb, q) && q.last() == x;
    let q2 = q.push(p);
    assert(forall|i: int| 0 <= i < q.len() ==> q2[i] == q[i]);
    assert(q2.last() == p);
    assert(q2[0] == q[0]);
    assert(is_path(g, q2)) by {
        assert forall|i: int|
            0 <= i < q2.len() - 1 implies g.parents_of(q2[i] as int).contains(q2[i + 1]) by {
            if i < q.len() - 1 {
                assert(g.parents_of(q[i] as int).contains(q[i + 1]));
            } else {
                assert(q2[i] == x);
            }
        }
    }
    assert(path_avoids(nb, q2));
    assert(reaches(g, a, p));
}

/// Ancestry goes down through a node's own parent.
pub proof fn lemma_reaches_via_parent(g: &Graph, m: usize, p: usize, x: usize)
    requires
        g.wf(),
        m < g.spec_node_count(),
        g.parents_of(m as int).contains(p),
        reaches(g, p, x),
    ensures
        reaches(g, m, x),
{
    let nb = no_barrier(g.spec_node_count());
    let q = choose|q: Seq<usize>|
        is_path(g, q) && seq![p].contains(q[0]) && path_avoids(nb, q) && q.last() == x;
    assert(q[0] == p);
    let q2 = seq![m] + q;
    assert(q2.len() == q.len() + 1);
    assert(q2[0] == m);
    assert(forall|i: int| 0 <= i < q.len() ==> q2[i + 1] == q[i]);
    assert(q2.last() == x);
    assert(is_path(g, q2)) by {
        assert forall|i: int|
            0 <= i < q2.len() - 1 implies g.parents_of(q2[i] as int).contains(q2[i + 1]) by {
            if i == 0 {
                assert(q2[1] == p);
            } else {
                assert(q2[i] == q[i - 1]);
                assert(q2[i + 1] == q[i]);
                assert(g.parents_of(q[i - 1] as int).contains(q[i]));
            }
        }
    }
    assert(seq![m].contains(q2[0]));
    assert(path_avoids(nb, q2));
    assert(reaches(g, m, x));
}

/// Growing the graph with fresh nodes keeps every ancestry relation among
/// the nodes already there.
pub proof fn lemma_extend_reaches(go: &Graph, gn: &Graph, a: usize, x: usize)
    requires
        go.wf(),
        go.spec_node_count() <= gn.spec_node_count(),
        forall|v: int|
            0 <= v < go.spec_node_count() ==> gn.parents_of(v) == go.parents_of(v),
        reaches(go, a, x),
    ensures
        reaches(gn, a, x),
{
    let nbo = no_barrier(go.spec_node_count());
    let nbn = no_barrier(gn.spec_node_count());
    let q = choose|q: Seq<usize>|
        is_path(go, q) && seq![a].contains(q[0]) && path_avoids(nbo, q) && q.last() == x;
    assert(is_path(gn, q)) by {
        assert forall|i: int|
            0 <= i < q.len() - 1 implies gn.parents_of(q[i] as int).contains(q[i + 1]) by {
            assert(go.parents_of(q[i] as int).contains(q[i + 1]));
        }
    }
    assert(path_avoids(nbn, q));
    assert(reaches(gn, a, x));
}

/// A vector of `n` copies of `false`.
fn make_false(n: usize) -> (r: Vec<bool>)
    ensures
        r@.len() == n,
        forall|i: int| 0 <= i < n ==> !r@[i],
{
    let mut r: Vec<bool> = Vec::new();
    let mut k: usize = 0;
    while k < n
        invariant
            k <= n,
            r@.len() == k,
            forall|i: int| 0 <= i < k ==> !r@[i],
        decreases n - k,
    {
        r.push(false);
        k += 1;
    }
    r
}

/// An all-false barrier vector of length `n`.
pub fn no_barrier_vec(n: usize) -> (r: Vec<bool>)
    ensures
        r@ == no_barrier(n as nat),
{
    let r = make_false(n);
    proof {
        assert(r@ =~= no_barrier(n as nat));
    }
    r
}

/// In a closed marking (every marked non-barrier node has all its parents
/// marked, and every start is marked), the end of every barrier-avoiding
/// path from a start is marked.
proof fn lemma_closed_marking_complete(
    g: &Graph,
    starts: Seq<usize>,
    barrier: Seq<bool>,
    marks: Seq<bool>,
    q: Seq<usize>,
)
    requires
        g.wf(),
        marks.len() == g.spec_node_count(),
        barrier.len() == g.spec_node_count(),
        forall|i: int| 0 <= i < starts.len() ==> (#[trigger] starts[i]) < g.spec_node_count(),
        forall|i: int| 0 <= i < starts.len() ==> marks[(#[trigger] starts[i]) as int],
        forall|c: int, k: int|
            0 <= c < g.spec_node_count() && marks[c] && !barrier[c] && 0 <= k < g.parents_of(
                c,
            ).len() ==> marks[(#[trigger] g.parents_of(c)[k]) as int],
        is_path(g, q),
        starts.contains(q[0]),
        path_avoids(barrier, q),
    ensures
        marks[q.last() as int],
    decreases q.len(),
{
    if q.len() == 1 {
        let i = choose|i: int| 0 <= i < starts.len() && starts[i] == q[0];
        assert(marks[(starts[i]) as int]);
    } else {
        let q2 = q.drop_last();
        assert(forall|i: int| 0 <= i < q2.len() ==> q2[i] == q[i]);
        assert(is_path(g, q2));
        lemma_closed_marking_complete(g, starts, barrier, marks, q2);
        let u = q[q.len() - 2];
        assert(q2.last() == u);
        assert(!barrier[u as int]);
        assert(g.parents_of(u as int).contains(q[q.len() - 2 + 1]));
        let ps = g.parents_of(u as int);
        let k = choose|k: int| 0 <= k < ps.len() && ps[k] == q.last();
        assert(marks[(ps[k]) as int]);
    }
}

/// Marks every node reachable from `starts` by following parent edges, where
/// barrier nodes are marked when reached but never walked through. With an
/// all-false barrier this is plain ancestry reachability.
#[verifier::rlimit(60)]
pub fn mark_reachable(g: &Graph, starts: &Vec<usize>, barrier: &Vec<bool>) -> (marks: Vec<bool>)
    requires
        g.wf(),
        barrier@.len() == g.spec_node_count(),
        forall|i: int| 0 <= i < starts@.len() ==> (#[trigger] starts@[i]) < g.spec_node_count(),
    ensures
        marks@.len() == g.spec_node_count(),
        forall|c: int|
            0 <= c < g.spec_node_count() ==> (marks@[c] <==> reaches_from(
                g,
                starts@,
                barrier@,
                c as usize,
            )),
{
    let n = g.node_count();
    let mut marks = make_false(n);
    let mut stack: Vec<usize> = Vec::new();
    let mut marked: usize = 0;
    proof {
        lemma_count_true_zero(marks@);
    }

    let mut si: usize = 0;
    while si < starts.len()
        invariant
            n == g.spec_node_count(),
            g.wf(),
            barrier@.len() == n,
            forall|i: int| 0 <= i < starts@.len() ==> (#[trigger] starts@[i]) < n,
            si <= starts@.len(),
            marks@.len() == n,
            marked == count_true(marks@),
            marked <= n,
            forall|i: int|
                0 <= i < stack@.len() ==> (#[trigger] stack@[i]) < n && marks@[stack@[i] as int],
            forall|i: int| 0 <= i < si ==> marks@[(#[trigger] starts@[i]) as int],
            forall|c: int|
                0 <= c < n && marks@[c] ==> reaches_from(g, starts@, barrier@, c as usize),
            forall|c: int| 0 <= c < n && marks@[c] ==> stack@.contains(c as usize),
        decreases starts@.len() - si,
    {
        let s = starts[si];
        if !marks[s] {
            let ghost pre_marks = marks@;
            let ghost pre_stack = stack@;
            marks.set(s, true);
            stack.push(s);
            proof {
                lemma_count_true_set(pre_marks, s as int);
                lemma_count_true_le_len(marks@);
            }
            marked += 1;
            proof {
                let q = seq![s];
                assert(q.len() == 1 && q[0] == s && q.last() == s);
                assert(is_path(g, q));
                assert(starts@[si as int] == s);
                assert(starts@.contains(s));
                assert(path_avoids(barrier@, q));
                assert(reaches_from(g, starts@, barrier@, s));
                assert forall|c: int| 0 <= c < n && marks@[c] implies stack@.contains(c as usize) by {
                    if c == s as int {
                        assert(stack@[stack@.len() - 1] == s);
                    } else {
                        assert(pre_marks[c]);
                        lemma_contains_push(pre_stack, s, c as usize);
                    }
                }
            }
        }
        si += 1;
    }

    while stack.len() > 0
        invariant
            n == g.spec_node_count(),
            g.wf(),
            barrier@.len() == n,
            forall|i: int| 0 <= i < starts@.len() ==> (#[trigger] starts@[i]) < n,
            marks@.len() == n,
            marked == count_true(marks@),
            marked <= n,
            forall|i: int|
                0 <= i < stack@.len() ==> (#[trigger] stack@[i]) < n && marks@[stack@[i] as int],
            forall|i: int| 0 <= i < starts@.len() ==> marks@[(#[trigger] starts@[i]) as int],
            forall|c: int|
                0 <= c < n && marks@[c] ==> reaches_from(g, starts@, barrier@, c as usize),
            forall|c: int, k: int|
                0 <= c < n && marks@[c] && !barrier@[c] && !stack@.contains(c as usize) && 0 <= k
                    < g.parents_of(c).len() ==> marks@[(#[trigger] g.parents_of(c)[k]) as int],
        decreases (n - marked), stack@.len(),
    {
        let ghost out_stack = stack@;
        let ghost out_marked = marked as int;
        let x = stack.pop().unwrap();
        proof {
            assert(out_stack[out_stack.len() - 1] == x);
            assert(stack@ =~= out_stack.drop_last());
            assert forall|c: int, kk: int|
                0 <= c < n && c != x as int && marks@[c] && !barrier@[c] && !stack@.contains(
                    c as usize,
                ) && 0 <= kk < g.parents_of(c).len() implies marks@[(g.parents_of(c)[kk]) as int] by {
                if out_stack.contains(c as usize) {
                    let i = choose|i: int| 0 <= i < out_stack.len() && out_stack[i] == c as usize;
                    if i < out_stack.len() - 1 {
                        assert(stack@[i] == c as usize);
                        assert(stack@.contains(c as usize));
                    }
                } else {
                    assert(marks@[(g.parents_of(c)[kk]) as int]);
                }
            }
        }
        if !barrier[x] {
            let ps_len = g.parent_list(x).len();
            let mut k: usize = 0;
            while k < ps_len
                invariant
                    n == g.spec_node_count(),
                    g.wf(),
                    barrier@.len() == n,
                    forall|i: int| 0 <= i < starts@.len() ==> (#[trigger] starts@[i]) < n,
                    x < n,
                    !barrier@[x as int],
                    marks@[x as int],
                    ps_len == g.parents_of(x as int).len(),
                    k <= ps_len,
                    marks@.len() == n,
                    marked == count_true(marks@),
                    marked <= n,
                    out_marked <= marked,
                    marked > out_marked || stack@.len() < out_stack.len(),
                    forall|i: int|
                        0 <= i < stack@.len() ==> (#[trigger] stack@[i]) < n && marks@[stack@[i] as int],
                    forall|i: int| 0 <= i < starts@.len() ==> marks@[(#[trigger] starts@[i]) as int],
                    forall|c: int|
                        0 <= c < n && marks@[c] ==> reaches_from(g, starts@, barrier@, c as usize),
                    forall|j: int|
                        0 <= j < k ==> marks@[(#[trigger] g.parents_of(x as int)[j]) as int],
                    forall|c: int, kk: int|
                        0 <= c < n && c != x as int && marks@[c] && !barrier@[c]
                            && !stack@.contains(c as usize) && 0 <= kk < g.parents_of(c).len()
                            ==> marks@[(#[trigger] g.parents_of(c)[kk]) as int],
                decreases ps_len - k,
            {
                let p = g.parent_list(x)[k];
                if !marks[p] {
                    let ghost pre_marks = marks@;
                    let ghost pre_stack = stack@;
                    marks.set(p, true);
                    stack.push(p);
                    proof {
                        lemma_count_true_set(pre_marks, p as int);
                        lemma_count_true_le_len(marks@);
                    }
                    marked += 1;
                    proof {
                        let q = choose|q: Seq<usize>|
                            is_path(g, q) && starts@.contains(q[0]) && path_avoids(barrier@, q)
                                && q.last() == x;
                        let q2 = q.push(p);
                        assert(forall|i: int| 0 <= i < q.len() ==> q2[i] == q[i]);
                        assert(q2.last() == p);
                        assert(q2[0] == q[0]);
                        assert(q2[q2.len() - 2] == x);
                        assert(g.parents_of(x as int)[k as int] == p);
                        assert(g.parents_of(x as int).contains(p));
                        assert(is_path(g, q2)) by {
                            assert forall|i: int|
                                0 <= i < q2.len() - 1 implies g.parents_of(q2[i] as int).contains(
                                q2[i + 1],
                            ) by {
                                if i < q.len() - 1 {
                                    assert(g.parents_of(q[i] as int).contains(q[i + 1]));
                                }
                            }
                        }
                        assert(path_avoids(barrier@, q2));
                        assert(reaches_from(g, starts@, barrier@, p));
                        assert(stack@[stack@.len() - 1] == p);
                        assert(stack@.contains(p));
                        assert forall|c: int, kk: int|
                            0 <= c < n && c != x as int && marks@[c] && !barrier@[c]
                                && !stack@.contains(c as usize) && 0 <= kk < g.parents_of(
                                c,
                            ).len() implies marks@[(g.parents_of(c)[kk]) as int] by {
                            if c == p as int {
                                assert(stack@.contains(c as usize));
                            } else {
                                assert(pre_marks[c]);
                                if pre_stack.contains(c as usize) {
                                    lemma_contains_push(pre_stack, p, c as usize);
                                }
                            }
                        }
                    }
                }
                k += 1;
            }
            proof {
                assert forall|c: int, kk: int|
                    0 <= c < n && marks@[c] && !barrier@[c] && !stack@.contains(c as usize) && 0
                        <= kk < g.parents_of(c).len() implies marks@[(g.parents_of(
                    c,
                )[kk]) as int] by {
                    if c == x as int {
                        assert(marks@[(g.parents_of(x as int)[kk]) as int]);
                    }
                }
            }
        }
    }

    proof {
        assert forall|c: int| 0 <= c < n implies (marks@[c] <==> reaches_from(
            g,
            starts@,
            barrier@,
            c as usize,
        )) by {
            if reaches_from(g, starts@, barrier@, c as usize) {
                let q = choose|q: Seq<usize>|
                    is_path(g, q) && starts@.contains(q[0]) && path_avoids(barrier@, q)
                        && q.last() == c as usize;
                lemma_closed_marking_complete(g, starts@, barrier@, marks@, q);
            }
        }
    }
    marks
}

} // verus!
