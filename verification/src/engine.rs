use vstd::prelude::*;

use crate::chain::ChainItem;
use crate::error::Error;
use crate::error::StoreOp;
use crate::graph::Graph;
use crate::ids::Interner;
use crate::store;

verus! {

/// The history rewrite engine's state: the per-branch heads under
/// construction, the forward map from an original commit to its rewritten
/// image, the inverse map from a rewritten commit back to the original it
/// stands for, the per-branch overlays of synthesized merges, and the
/// per-branch dirty flags (set when a more junior branch's new commits have
/// not yet been merged forward into this branch's head). Commits are the
/// dense indices of the run's id table; the maps are kept as index-addressed
/// tables over the universe of ids seen so far.
pub struct Engine {
    heads: Vec<Option<usize>>,
    fwd: Vec<Option<usize>>,
    inv: Vec<Option<usize>>,
    overlays: Vec<Vec<(usize, usize)>>,
    dirty: Vec<bool>,
}

impl Engine {
    /// The number of branches.
    pub closed spec fn branch_count(&self) -> nat {
        self.heads@.len()
    }

    /// The number of commit ids the maps can speak about.
    pub closed spec fn universe(&self) -> nat {
        self.fwd@.len()
    }

    pub closed spec fn spec_heads(&self) -> Seq<Option<usize>> {
        self.heads@
    }

    pub closed spec fn spec_fwd(&self) -> Seq<Option<usize>> {
        self.fwd@
    }

    pub closed spec fn spec_inv(&self) -> Seq<Option<usize>> {
        self.inv@
    }

    pub closed spec fn spec_dirty(&self) -> Seq<bool> {
        self.dirty@
    }

    pub closed spec fn spec_overlays(&self) -> Seq<Seq<(usize, usize)>> {
        self.overlays@.map_values(|row: Vec<(usize, usize)>| row@)
    }

    /// Branch `j`'s overlay already records the original commit `orig`.
    pub open spec fn overlay_key_taken(&self, j: int, orig: usize) -> bool {
        exists|x: int|
            0 <= x < self.spec_overlays()[j].len() && (#[trigger] self.spec_overlays()[j][x]).0
                == orig
    }

    /// Evidence for the unsupported-rewrite refusal at `x`: it lies in
    /// `q`'s ancestry and one of its parents' recorded images differs from
    /// the parent itself.
    pub open spec fn rewritten_ancestor_witness(&self, g: &Graph, q: usize, x: usize) -> bool {
        &&& x < g.spec_node_count()
        &&& crate::graph::reaches(g, q, x)
        &&& exists|jj: int|
            0 <= jj < g.parents_of(x as int).len() && ((#[trigger] self.spec_fwd()[g.parents_of(
                x as int,
            )[jj] as int]) matches Some(v) && v != g.parents_of(x as int)[jj])
    }

    /// The engine's standing invariants: the most senior branch is never
    /// dirty, the dirty flags form a prefix of the branches, a clean branch
    /// has a head, every head is a known rewritten commit, and the forward
    /// and inverse maps are mutual inverses over the forward map's domain.
    pub open spec fn wf(&self) -> bool {
        &&& self.branch_count() >= 1
        &&& self.spec_dirty().len() == self.branch_count()
        &&& self.spec_overlays().len() == self.branch_count()
        &&& self.spec_inv().len() == self.universe()
        &&& forall|j: int|
            0 <= j < self.branch_count() && (#[trigger] self.spec_dirty()[j]) ==> j + 1
                < self.branch_count()
        &&& forall|i: int, j: int|
            0 <= i <= j < self.branch_count() && (#[trigger] self.spec_dirty()[j]) ==> (
            #[trigger] self.spec_dirty()[i])
        &&& forall|j: int|
            0 <= j < self.branch_count() && !(#[trigger] self.spec_dirty()[j])
                ==> self.spec_heads()[j] is Some
        &&& forall|j: int|
            0 <= j < self.branch_count() ==> ((#[trigger] self.spec_heads()[j]) matches Some(h)
                ==> h < self.universe() && self.spec_inv()[h as int] is Some)
        &&& forall|k: int|
            0 <= k < self.universe() ==> ((#[trigger] self.spec_fwd()[k]) matches Some(v) ==> v
                < self.universe() && self.spec_inv()[v as int] == Some(k as usize))
    }

    /// Starts a rewrite: the oldest collected item `anchor` is its own
    /// rewritten image and the head of its target branch `a`; every more
    /// senior branch starts at `base`, the most senior region's tip, which
    /// also maps to itself; every more junior branch is dirty, still to be
    /// caught up from the anchor.
    pub fn init(
        branches: usize,
        anchor: usize,
        anchor_branch: usize,
        base: usize,
        universe: usize,
    ) -> (r: Result<Engine, Error>)
        ensures
            match r {
                Ok(e) => {
                    &&& e.wf()
                    &&& e.branch_count() == branches
                    &&& e.universe() == universe
                    &&& forall|x: int|
                        0 <= x < branches ==> e.spec_heads()[x] == (if x < anchor_branch {
                            None::<usize>
                        } else if x == anchor_branch {
                            Some(anchor)
                        } else {
                            Some(base)
                        })
                    &&& forall|x: int| 0 <= x < branches ==> (e.spec_dirty()[x] <==> x < anchor_branch)
                    &&& e.spec_fwd()[anchor as int] == Some(anchor)
                    &&& e.spec_fwd()[base as int] == Some(base)
                },
                Err(e) => e == Error::InternalInvariant,
            },
            r is Err <==> (branches == 0 || anchor_branch >= branches || anchor >= universe
                || base >= universe || anchor == base),
    {
        if branches == 0 || anchor_branch >= branches || anchor >= universe || base >= universe
            || anchor == base {
            return Err(Error::InternalInvariant);
        }
        let mut heads: Vec<Option<usize>> = Vec::new();
        let mut dirty: Vec<bool> = Vec::new();
        let mut overlays: Vec<Vec<(usize, usize)>> = Vec::new();
        let mut j: usize = 0;
        while j < branches
            invariant
                j <= branches,
                anchor_branch < branches,
                heads@.len() == j,
                dirty@.len() == j,
                overlays@.len() == j,
                forall|x: int|
                    0 <= x < j ==> heads@[x] == (if x < anchor_branch {
                        None::<usize>
                    } else if x == anchor_branch {
                        Some(anchor)
                    } else {
                        Some(base)
                    }),
                forall|x: int| 0 <= x < j ==> (dirty@[x] <==> x < anchor_branch),
            decreases branches - j,
        {
            if j < anchor_branch {
                heads.push(None);
                dirty.push(true);
            } else if j == anchor_branch {
                heads.push(Some(anchor));
                dirty.push(false);
            } else {
                heads.push(Some(base));
                dirty.push(false);
            }
            overlays.push(Vec::new());
            j += 1;
        }
        let mut fwd: Vec<Option<usize>> = Vec::new();
        let mut inv: Vec<Option<usize>> = Vec::new();
        let mut k: usize = 0;
        while k < universe
            invariant
                k <= universe,
                anchor < universe,
                base < universe,
                fwd@.len() == k,
                inv@.len() == k,
                forall|x: int|
                    0 <= x < k ==> fwd@[x] == (if x == anchor {
                        Some(anchor)
                    } else if x == base {
                        Some(base)
                    } else {
                        None::<usize>
                    }),
                forall|x: int| 0 <= x < k ==> inv@[x] == fwd@[x],
            decreases universe - k,
        {
            if k == anchor {
                fwd.push(Some(anchor));
                inv.push(Some(anchor));
            } else if k == base {
                fwd.push(Some(base));
                inv.push(Some(base));
            } else {
                fwd.push(None);
                inv.push(None);
            }
            k += 1;
        }
        let e = Engine { heads, fwd, inv, overlays, dirty };
        Ok(e)
    }

    /// Extends the maps with empty entries so they can speak about `un2`
    /// ids.
    pub fn grow_universe(&mut self, un2: usize)
        requires
            old(self).wf(),
        ensures
            final(self).wf(),
            final(self).branch_count() == old(self).branch_count(),
            final(self).universe() >= un2,
            final(self).universe() >= old(self).universe(),
            final(self).spec_heads() == old(self).spec_heads(),
            final(self).spec_dirty() == old(self).spec_dirty(),
            old(self).spec_fwd().is_prefix_of(final(self).spec_fwd()),
            old(self).spec_inv().is_prefix_of(final(self).spec_inv()),
            final(self).universe() == (if old(self).universe() >= un2 {
                old(self).universe()
            } else {
                un2 as nat
            }),
    {
        let ghost pre = *self;
        while self.fwd.len() < un2
            invariant
                self.wf(),
                pre.wf(),
                self.heads == pre.heads,
                self.dirty == pre.dirty,
                self.overlays == pre.overlays,
                self.universe() >= pre.universe(),
                pre.spec_fwd().is_prefix_of(self.spec_fwd()),
                pre.spec_inv().is_prefix_of(self.spec_inv()),
                pre.universe() >= un2 ==> self.universe() == pre.universe(),
                pre.universe() < un2 ==> self.universe() <= un2,
            decreases un2 - self.fwd.len(),
        {
            self.fwd.push(None);
            self.inv.push(None);
        }
    }

    /// The head of branch `j`.
    pub fn head_of(&self, j: usize) -> (r: Option<usize>)
        requires
            j < self.branch_count(),
        ensures
            r == self.spec_heads()[j as int],
    {
        self.heads[j]
    }

    /// Whether branch `j` is dirty.
    pub fn dirty_of(&self, j: usize) -> (r: bool)
        requires
            self.wf(),
            j < self.branch_count(),
        ensures
            r == self.spec_dirty()[j as int],
    {
        self.dirty[j]
    }

    /// The forward image of commit `k`.
    pub fn fwd_of(&self, k: usize) -> (r: Option<usize>)
        requires
            k < self.universe(),
        ensures
            r == self.spec_fwd()[k as int],
    {
        self.fwd[k]
    }

    /// The original commit a rewritten commit `k` stands for.
    pub fn inv_of(&self, k: usize) -> (r: Option<usize>)
        requires
            self.wf(),
            k < self.universe(),
        ensures
            r == self.spec_inv()[k as int],
    {
        self.inv[k]
    }

    /// Inherits the senior head wholesale: a fast-forward, no new commit
    /// and no new map entries.
    fn fast_forward(&mut self, j: usize, h: usize)
        requires
            old(self).wf(),
            j < old(self).branch_count(),
            h < old(self).universe(),
            old(self).spec_inv()[h as int] is Some,
            forall|x: int|
                j < x < old(self).branch_count() ==> !(#[trigger] old(self).spec_dirty()[x]),
        ensures
            final(self).wf(),
            final(self).branch_count() == old(self).branch_count(),
            final(self).universe() == old(self).universe(),
            final(self).spec_fwd() == old(self).spec_fwd(),
            final(self).spec_inv() == old(self).spec_inv(),
            final(self).spec_heads() == old(self).spec_heads().update(j as int, Some(h)),
            final(self).spec_dirty() == old(self).spec_dirty().update(j as int, false),
    {
        self.heads.set(j, Some(h));
        self.dirty.set(j, false);
    }

    /// Whether branch `j`'s overlay already records the original commit
    /// `orig`.
    fn overlay_has(&self, j: usize, orig: usize) -> (r: bool)
        requires
            self.wf(),
            j < self.branch_count(),
        ensures
            r == self.overlay_key_taken(j as int, orig),
    {
        let row = &self.overlays[j];
        let n = row.len();
        let mut x: usize = 0;
        while x < n
            invariant
                j < self.spec_overlays().len(),
                n == self.spec_overlays()[j as int].len(),
                x <= n,
                forall|i: int|
                    0 <= i < x ==> (#[trigger] self.spec_overlays()[j as int][i]).0 != orig,
            decreases n - x,
        {
            if self.overlays[j][x].0 == orig {
                proof {
                    assert(self.spec_overlays()[j as int][x as int].0 == orig);
                }
                return true;
            }
            x += 1;
        }
        false
    }

    /// Records a synthesized merge commit `m` for branch `j`, standing for
    /// the original commit `orig`: a fresh inverse entry and a fresh overlay
    /// entry, the branch's new head, the branch clean.
    fn record_merge(&mut self, j: usize, orig: usize, m: usize)
        requires
            old(self).wf(),
            j < old(self).branch_count(),
            m < old(self).universe(),
            old(self).spec_inv()[m as int] is None,
            !old(self).overlay_key_taken(j as int, orig),
            forall|x: int|
                j < x < old(self).branch_count() ==> !(#[trigger] old(self).spec_dirty()[x]),
        ensures
            final(self).wf(),
            final(self).branch_count() == old(self).branch_count(),
            final(self).universe() == old(self).universe(),
            final(self).spec_fwd() == old(self).spec_fwd(),
            final(self).spec_inv() == old(self).spec_inv().update(m as int, Some(orig)),
            final(self).spec_heads() == old(self).spec_heads().update(j as int, Some(m)),
            final(self).spec_dirty() == old(self).spec_dirty().update(j as int, false),
            final(self).spec_overlays() == old(self).spec_overlays().update(
                j as int,
                old(self).spec_overlays()[j as int].push((orig, m)),
            ),
    {
        let ghost pre = *self;
        self.inv.set(m, Some(orig));
        let mut row = self.overlays.remove(j);
        row.push((orig, m));
        self.overlays.insert(j, row);
        proof {
            assert(self.overlays@ =~= pre.overlays@.update(
                j as int,
                self.overlays@[j as int],
            ));
            assert(self.spec_overlays() =~= pre.spec_overlays().update(
                j as int,
                pre.spec_overlays()[j as int].push((orig, m)),
            ));
        }
        self.heads.set(j, Some(m));
        self.dirty.set(j, false);
        proof {
            assert forall|k: int|
                0 <= k < self.universe() && (#[trigger] self.spec_fwd()[k]) is Some implies
                self.spec_fwd()[k].unwrap() < self.universe() && self.spec_inv()[self.spec_fwd()[
                k].unwrap() as int] == Some(k as usize) by {
                assert(pre.spec_fwd()[k] matches Some(v2) && v2 < pre.universe()
                    && pre.spec_inv()[v2 as int] == Some(k as usize));
            }
        }
    }

    /// Records an untouched outside commit: it maps to itself in both
    /// directions.
    fn record_self(&mut self, x: usize)
        requires
            old(self).wf(),
            x < old(self).universe(),
            old(self).spec_fwd()[x as int] is None,
            old(self).spec_inv()[x as int] is None,
        ensures
            final(self).wf(),
            final(self).branch_count() == old(self).branch_count(),
            final(self).universe() == old(self).universe(),
            final(self).spec_heads() == old(self).spec_heads(),
            final(self).spec_dirty() == old(self).spec_dirty(),
            final(self).spec_fwd() == old(self).spec_fwd().update(x as int, Some(x)),
            final(self).spec_inv() == old(self).spec_inv().update(x as int, Some(x)),
    {
        let ghost pre = *self;
        self.fwd.set(x, Some(x));
        self.inv.set(x, Some(x));
        proof {
            assert forall|k: int|
                0 <= k < self.universe() && (#[trigger] self.spec_fwd()[k]) is Some implies
                self.spec_fwd()[k].unwrap() < self.universe() && self.spec_inv()[self.spec_fwd()[
                k].unwrap() as int] == Some(k as usize) by {
                if k != x as int {
                    assert(pre.spec_fwd()[k] matches Some(v2) && v2 < pre.universe()
                        && pre.spec_inv()[v2 as int] == Some(k as usize));
                }
            }
        }
    }

    /// Records a cherry-picked commit: the original `orig` now maps to the
    /// new commit `newc` and back, the new commit is branch `t`'s head, and
    /// every more junior branch is dirty again.
    fn record_pick(&mut self, orig: usize, newc: usize, t: usize)
        requires
            old(self).wf(),
            t < old(self).branch_count(),
            orig < old(self).universe(),
            newc < old(self).universe(),
            old(self).spec_fwd()[orig as int] is None,
            old(self).spec_inv()[newc as int] is None,
        ensures
            final(self).wf(),
            final(self).branch_count() == old(self).branch_count(),
            final(self).universe() == old(self).universe(),
            final(self).spec_fwd() == old(self).spec_fwd().update(orig as int, Some(newc)),
            final(self).spec_inv() == old(self).spec_inv().update(newc as int, Some(orig)),
            final(self).spec_heads() == old(self).spec_heads().update(t as int, Some(newc)),
            forall|j: int|
                0 <= j < old(self).branch_count() ==> final(self).spec_dirty()[j] == (old(
                    self,
                ).spec_dirty()[j] || j < t),
    {
        let ghost pre = *self;
        self.fwd.set(orig, Some(newc));
        self.inv.set(newc, Some(orig));
        self.heads.set(t, Some(newc));
        let mut x: usize = 0;
        while x < t
            invariant
                x <= t,
                t < self.dirty@.len(),
                self.dirty@.len() == pre.dirty@.len(),
                self.heads@.len() == pre.heads@.len(),
                self.fwd@.len() == pre.fwd@.len(),
                self.inv@.len() == pre.inv@.len(),
                self.overlays@.len() == pre.overlays@.len(),
                self.fwd@ == pre.fwd@.update(orig as int, Some(newc)),
                self.inv@ == pre.inv@.update(newc as int, Some(orig)),
                self.heads@ == pre.heads@.update(t as int, Some(newc)),
                forall|i: int| 0 <= i < x ==> (#[trigger] self.dirty@[i]),
                forall|i: int| x <= i < self.dirty@.len() ==> self.dirty@[i] == pre.dirty@[i],
            decreases t - x,
        {
            self.dirty.set(x, true);
            x += 1;
        }
        proof {
            assert forall|k: int|
                0 <= k < self.universe() && (#[trigger] self.spec_fwd()[k]) is Some implies
                self.spec_fwd()[k].unwrap() < self.universe() && self.spec_inv()[self.spec_fwd()[
                k].unwrap() as int] == Some(k as usize) by {
                if k != orig as int {
                    assert(pre.spec_fwd()[k] matches Some(v2) && v2 < pre.universe()
                        && pre.spec_inv()[v2 as int] == Some(k as usize));
                    let v2 = pre.spec_fwd()[k].unwrap();
                    assert(v2 != newc);
                }
            }
            assert forall|j: int|
                0 <= j < self.branch_count() && (#[trigger] self.spec_dirty()[j]) implies j + 1
                < self.branch_count() by {
                if j >= t as int {
                    assert(pre.spec_dirty()[j]);
                }
            }
            assert forall|j: int|
                0 <= j < self.branch_count() && !(#[trigger] self.spec_dirty()[j]) implies self.spec_heads()[j] is Some by {
                if j != t as int {
                    assert(self.spec_dirty()[j] == pre.spec_dirty()[j]);
                }
            }
            assert forall|i: int, j: int|
                #![trigger self.spec_dirty()[i], self.spec_dirty()[j]]
                0 <= i <= j < self.branch_count() && self.spec_dirty()[j] implies (
            self.spec_dirty()[i]) by {
                if i >= t as int {
                    assert(pre.spec_dirty()[j]);
                    assert(pre.spec_dirty()[i]);
                }
            }
            assert forall|j: int|
                0 <= j < self.branch_count() && (#[trigger] self.spec_heads()[j]) is Some implies
                self.spec_heads()[j].unwrap() < self.universe() && self.spec_inv()[self.spec_heads()[
                j].unwrap() as int] is Some by {
                if j != t as int {
                    let h = pre.spec_heads()[j].unwrap();
                    assert(pre.spec_inv()[h as int] is Some);
                    assert(h != newc);
                }
            }
        }
    }
}

/// Law: the forward and inverse maps are exact mutual inverses over their
/// shared domain. Composing the inverse map after the forward map is the
/// identity on the forward map's domain; composing the forward map after
/// the inverse map is the identity on the forward map's range; and the
/// forward map is injective. This holds in every state the engine's
/// invariants describe, hence at every step of a run.
pub proof fn lemma_maps_mutual_inverses(e: &Engine)
    requires
        e.wf(),
    ensures
        forall|k: usize|
            k < e.universe() ==> ((#[trigger] e.spec_fwd()[k as int]) matches Some(v)
                ==> e.spec_inv()[v as int] == Some(k)),
        forall|k: usize|
            k < e.universe() ==> ((#[trigger] e.spec_fwd()[k as int]) matches Some(v)
                ==> (e.spec_inv()[v as int] matches Some(b) && e.spec_fwd()[b as int] == Some(v))),
        forall|k1: usize, k2: usize|
            k1 < e.universe() && k2 < e.universe() && e.spec_fwd()[k1 as int] is Some && (
            #[trigger] e.spec_fwd()[k1 as int]) == (#[trigger] e.spec_fwd()[k2 as int]) ==> k1
                == k2,
{
    assert forall|k: usize|
        k < e.universe() && (#[trigger] e.spec_fwd()[k as int]) is Some implies
        e.spec_inv()[e.spec_fwd()[k as int].unwrap() as int] == Some(k) && e.spec_fwd()[k as int]
        == Some(e.spec_fwd()[k as int].unwrap()) by {
        let v = e.spec_fwd()[k as int].unwrap();
        assert(e.spec_inv()[v as int] == Some((k as int) as usize));
    }
    assert forall|k1: usize, k2: usize|
        k1 < e.universe() && k2 < e.universe() && e.spec_fwd()[k1 as int] is Some && (
    #[trigger] e.spec_fwd()[k1 as int]) == (#[trigger] e.spec_fwd()[k2 as int]) implies k1
        == k2 by {
        let v = e.spec_fwd()[k1 as int].unwrap();
        assert(e.spec_inv()[v as int] == Some(k1));
        assert(e.spec_inv()[v as int] == Some(k2));
    }
}

/// Law: the most senior branch is never dirty; it has no senior branch to
/// catch up from. This holds in every state the engine's invariants
/// describe.
pub proof fn lemma_most_senior_never_dirty(e: &Engine)
    requires
        e.wf(),
    ensures
        !e.spec_dirty()[e.branch_count() - 1],
{
    if e.spec_dirty()[e.branch_count() - 1] {
        assert(e.branch_count() - 1 + 1 < e.branch_count());
    }
}

/// A prefix agrees with the longer sequence at every index it has.
proof fn lemma_prefix_index<A>(a: Seq<A>, b: Seq<A>)
    requires
        a.is_prefix_of(b),
    ensures
        forall|i: int| 0 <= i < a.len() ==> a[i] == #[trigger] b[i],
{
    assert forall|i: int| 0 <= i < a.len() implies a[i] == #[trigger] b[i] by {
        assert(a[i] == b.subrange(0, a.len() as int)[i]);
    }
}

/// Wraps a store failure as the run's typed error.
fn store_err(op: StoreOp, message: String) -> (r: Error)
    ensures
        r == (Error::Store { op, message }),
{
    Error::Store { op, message }
}

/// Synthesizes one catch-up merge for branch `j`: merges the senior head
/// `h_hi` into the branch's own head `h_lo`, records the new commit as a
/// fresh model node whose parents are exactly `[h_lo, h_hi]`, books it as
/// standing for the original commit `orig`, and leaves the branch clean.
#[verifier::rlimit(100)]
fn synthesize_merge(
    e: &mut Engine,
    g: &mut Graph,
    it: &mut Interner,
    repo: &git2::Repository,
    names: &Vec<String>,
    j: usize,
    orig: usize,
    h_lo: usize,
    h_hi: usize,
) -> (r: Result<(), Error>)
    requires
        old(e).wf(),
        old(it).wf(),
        old(g).wf(),
        j + 1 < old(e).branch_count(),
        names@.len() == old(e).branch_count(),
        old(e).universe() == old(it)@.len(),
        old(g).spec_node_count() == old(e).universe(),
        h_lo < old(e).universe(),
        h_hi < old(e).universe(),
        old(e).spec_heads()[j as int] == Some(h_lo),
        old(e).spec_dirty()[j as int],
        forall|x: int| j < x < old(e).branch_count() ==> !(#[trigger] old(e).spec_dirty()[x]),
    ensures
        final(e).wf(),
        final(it).wf(),
        final(g).wf(),
        final(e).branch_count() == old(e).branch_count(),
        final(e).universe() == final(it)@.len(),
        final(g).spec_node_count() == final(e).universe(),
        final(e).universe() >= old(e).universe(),
        old(it)@.is_prefix_of(final(it)@),
        old(e).spec_fwd().is_prefix_of(final(e).spec_fwd()),
        forall|v: int|
            0 <= v < old(g).spec_node_count() ==> final(g).parents_of(v) == old(g).parents_of(v),
        forall|x: int|
            0 <= x < old(e).branch_count() && x != j ==> final(e).spec_heads()[x] == old(e).spec_heads()[x] && final(e).spec_dirty()[x] == old(e).spec_dirty()[x],
        r matches Ok(()) ==> {
            &&& !final(e).spec_dirty()[j as int]
            &&& (final(e).spec_heads()[j as int] matches Some(m) && m < final(g).spec_node_count() && final(g).parents_of(m as int) == seq![h_lo, h_hi] && final(e).spec_inv()[m as int] == Some(orig))
        },
        r is Err ==> final(e).spec_dirty()[j as int] == old(e).spec_dirty()[j as int] && final(e).spec_heads()[j as int] == old(e).spec_heads()[j as int],
        r matches Err(er) ==> (er == Error::InternalInvariant || (er matches Error::Store {
            op,
            ..
        } && (op == StoreOp::Merge || op == StoreOp::WriteCommit))),
{
    let nbu = names.len();
    proof {
        assert(j + 1 < nbu);
    }
    let msg = String::from_str("Merge ").concat(names[j + 1].as_str()).concat(" into ").concat(
        names[j].as_str(),
    );
    let tree = match store::merge_tree_of(repo, it.get(h_lo), it.get(h_hi)) {
        Ok(t) => t,
        Err(m) => {
            return Err(store_err(StoreOp::Merge, m));
        },
    };
    let newc = match store::create_merge_commit(repo, msg.as_str(), &tree, it.get(h_lo), it.get(
        h_hi,
    )) {
        Ok(c) => c,
        Err(m) => {
            return Err(store_err(StoreOp::WriteCommit, m));
        },
    };
    let ghost pre_g = *g;
    let (m_idx, fresh) = it.intern(newc);
    if !fresh {
        return Err(Error::InternalInvariant);
    }
    let gn = g.add_node();
    e.grow_universe(it.len());
    proof {
        assert(gn == m_idx);
        assert(forall|v: int|
            0 <= v < pre_g.spec_node_count() ==> g.parents_of(v) == pre_g.parents_of(v));
    }
    let mut mp: Vec<usize> = Vec::new();
    mp.push(h_lo);
    mp.push(h_hi);
    proof {
        assert(mp@ =~= seq![h_lo, h_hi]);
    }
    let ghost g_added = *g;
    let okp = g.set_parents(m_idx, mp);
    proof {
        assert forall|v: int|
            0 <= v < old(g).spec_node_count() implies g.parents_of(v) == old(g).parents_of(
            v,
        ) by {
            assert(v != m_idx as int);
            assert(g.parents_of(v) == g_added.parents_of(v));
        }
    }
    if !okp {
        return Err(Error::InternalInvariant);
    }
    if e.inv_of(m_idx).is_some() {
        return Err(Error::InternalInvariant);
    }
    if e.overlay_has(j, orig) {
        return Err(Error::InternalInvariant);
    }
    e.record_merge(j, orig, m_idx);
    proof {
        assert(g.parents_of(m_idx as int) == seq![h_lo, h_hi]);
    }
    Ok(())
}

/// Brings branch `b` up to date with every more senior branch: climbs to
/// the first clean branch, then unwinds, fast-forwarding a branch without a
/// head and synthesizing a merge commit (senior head merged into the
/// branch's own) for a branch with one. Each synthesized merge becomes a
/// fresh model node whose parents are exactly the branch's old head and the
/// senior head. Returns the original commit id that branch `b`'s head now
/// stands for.
#[verifier::rlimit(100)]
#[verifier::spinoff_prover]
pub fn catch_up_branch(
    e: &mut Engine,
    g: &mut Graph,
    it: &mut Interner,
    repo: &git2::Repository,
    names: &Vec<String>,
    b: usize,
) -> (r: Result<usize, Error>)
    requires
        old(e).wf(),
        old(it).wf(),
        old(g).wf(),
        b < old(e).branch_count(),
        names@.len() == old(e).branch_count(),
        old(e).universe() == old(it)@.len(),
        old(g).spec_node_count() == old(e).universe(),
    ensures
        final(e).wf(),
        final(it).wf(),
        final(g).wf(),
        final(e).branch_count() == old(e).branch_count(),
        final(e).universe() == final(it)@.len(),
        final(g).spec_node_count() == final(e).universe(),
        final(e).universe() >= old(e).universe(),
        old(it)@.is_prefix_of(final(it)@),
        old(e).spec_fwd().is_prefix_of(final(e).spec_fwd()),
        forall|v: int|
            0 <= v < old(g).spec_node_count() ==> final(g).parents_of(v) == old(g).parents_of(v),
        forall|j: int|
            0 <= j < b ==> final(e).spec_heads()[j] == old(e).spec_heads()[j]
                && final(e).spec_dirty()[j] == old(e).spec_dirty()[j],
        forall|j: int|
            0 <= j < old(e).branch_count() && !(#[trigger] old(e).spec_dirty()[j])
                ==> final(e).spec_heads()[j] == old(e).spec_heads()[j]
                && !final(e).spec_dirty()[j],
        r matches Ok(orig) ==> !final(e).spec_dirty()[b as int] && (final(e).spec_heads()[
        b as int] matches Some(h) && final(e).spec_inv()[h as int] == Some(orig)),
        r matches Ok(orig) ==> forall|j: int|
            b <= j < old(e).branch_count() && (#[trigger] old(e).spec_dirty()[j]) ==> level_shape(
                *old(e),
                *final(e),
                *final(g),
                j,
            ),
        r matches Err(er) ==> (er == Error::InternalInvariant || (er matches Error::Store {
            op,
            ..
        } && (op == StoreOp::Merge || op == StoreOp::WriteCommit))),
        !old(e).spec_dirty()[b as int] ==> *final(e) == *old(e) && final(it)@ == old(it)@
            && *final(g) == *old(g) && r == Ok::<usize, Error>(old(e).spec_inv()[old(e).spec_heads()[b as int].unwrap() as int].unwrap()),
{
    let nb = names.len();
    let mut bs = b;
    while e.dirty_of(bs)
        invariant
            e.wf(),
            *e == *old(e),
            nb == e.branch_count(),
            b <= bs < nb,
            forall|x: int| b <= x < bs ==> e.spec_dirty()[x],
        decreases nb - bs,
    {
        bs += 1;
    }
    let h0 = e.head_of(bs).unwrap();
    let orig = e.inv_of(h0).unwrap();
    let mut j = bs;
    while j > b
        invariant
            e.wf(),
            it.wf(),
            g.wf(),
            nb == e.branch_count(),
            e.branch_count() == old(e).branch_count(),
            names@.len() == nb,
            e.universe() == it@.len(),
            g.spec_node_count() == e.universe(),
            e.universe() >= old(e).universe(),
            old(g).spec_node_count() == old(e).universe(),
            old(g).spec_node_count() <= g.spec_node_count(),
            old(it)@.is_prefix_of(it@),
            old(e).spec_fwd().is_prefix_of(e.spec_fwd()),
            forall|v: int|
                0 <= v < old(g).spec_node_count() ==> g.parents_of(v) == old(g).parents_of(v),
            b <= j <= bs < nb,
            !old(e).spec_dirty()[b as int] ==> j == bs && bs == b && *e == *old(e) && it@ == old(
                it,
            )@ && *g == *old(g),
            forall|x: int| b <= x < bs ==> old(e).spec_dirty()[x],
            !old(e).spec_dirty()[bs as int],
            forall|x: int|
                0 <= x < nb && !(x >= j && x < bs) ==> e.spec_heads()[x] == old(e).spec_heads()[x]
                    && e.spec_dirty()[x] == old(e).spec_dirty()[x],
            forall|x: int| j <= x < bs ==> level_shape(*old(e), *e, *g, x),
            !e.spec_dirty()[j as int],
            (e.spec_heads()[j as int] matches Some(h) && e.spec_inv()[h as int] == Some(orig)),
        decreases j,
    {
        let ghost e_head = *e;
        let ghost g_head = *g;
        j -= 1;
        let h_hi = e.head_of(j + 1).unwrap();
        match e.head_of(j) {
            None => {
                e.fast_forward(j, h_hi);
            },
            Some(h_lo) => {
                proof {
                    assert forall|x: int|
                        j < x < e.branch_count() implies !(#[trigger] e.spec_dirty()[x]) by {
                        if e.spec_dirty()[x] {
                            assert(e.spec_dirty()[j + 1]);
                        }
                    }
                }
                match synthesize_merge(e, g, it, repo, names, j, orig, h_lo, h_hi) {
                    Ok(()) => {},
                    Err(er) => {
                        return Err(er);
                    },
                }
            },
        }
        proof {
            reveal(crate::engine::level_shape);
            assert forall|x: int| j <= x < bs implies level_shape(*old(e), *e, *g, x) by {
                if x == j {
                    assert(e_head.spec_heads()[x] == old(e).spec_heads()[x]);
                    assert(e.spec_heads()[x + 1] == e_head.spec_heads()[x + 1]);
                } else {
                    assert(level_shape(*old(e), e_head, g_head, x));
                    assert(e.spec_heads()[x] == e_head.spec_heads()[x]);
                    assert(e.spec_heads()[x + 1] == e_head.spec_heads()[x + 1]);
                    assert(e.spec_dirty()[x] == e_head.spec_dirty()[x]);
                    if old(e).spec_heads()[x] matches Some(h) {
                        let m = e_head.spec_heads()[x].unwrap();
                        assert(m < g_head.spec_node_count());
                        assert(g.parents_of(m as int) == g_head.parents_of(m as int));
                    }
                }
            }
        }
    }
    proof {
        assert forall|x: int|
            b <= x < old(e).branch_count() && (#[trigger] old(e).spec_dirty()[x]) implies x
            < bs by {
            if x >= bs {
                assert(old(e).spec_dirty()[bs as int]);
            }
        }
    }
    Ok(orig)
}

/// Resolves a parent that lies outside the edited chain: its already
/// recorded image is returned as it stands, or the parent is kept unchanged
/// (mapped to itself) after checking that its whole ancestry is unchanged
/// too. An outside parent with an ancestor whose image differs from itself
/// is not supported and stops the run; the error names such an ancestor.
pub fn resolve_outside_parent(e: &mut Engine, g: &Graph, q: usize) -> (r: Result<usize, Error>)
    requires
        old(e).wf(),
        g.wf(),
        q < g.spec_node_count(),
        g.spec_node_count() <= old(e).universe(),
    ensures
        final(e).wf(),
        final(e).branch_count() == old(e).branch_count(),
        final(e).universe() == old(e).universe(),
        final(e).spec_heads() == old(e).spec_heads(),
        final(e).spec_dirty() == old(e).spec_dirty(),
        forall|k: int|
            0 <= k < old(e).universe() && final(e).spec_fwd()[k] != (
            #[trigger] old(e).spec_fwd()[k]) ==> old(e).spec_fwd()[k] is None
                && final(e).spec_fwd()[k] == Some(k as usize),
        forall|k: int|
            0 <= k < old(e).universe() && old(e).spec_fwd()[k] is Some ==> (
            #[trigger] final(e).spec_fwd()[k]) == old(e).spec_fwd()[k],
        forall|k: int|
            0 <= k < old(e).universe() && final(e).spec_fwd()[k] != (
            #[trigger] old(e).spec_fwd()[k]) ==> k < g.spec_node_count() && (forall|j: int|
                0 <= j < g.parents_of(k).len() ==> final(e).spec_fwd()[(#[trigger] g.parents_of(
                    k,
                )[j]) as int] == Some(g.parents_of(k)[j])),
        old(e).spec_fwd()[q as int] is Some ==> final(e).spec_fwd() == old(e).spec_fwd() && r
            == Ok::<usize, Error>(old(e).spec_fwd()[q as int].unwrap()),
        r matches Ok(v) ==> v < final(e).universe() && final(e).spec_fwd()[q as int] == Some(v)
            && (old(e).spec_fwd()[q as int] is None ==> v == q),
        r matches Err(er) ==> {
            &&& (er matches Error::UnsupportedParentRewrite { .. } || er == Error::CyclicHistory
                || er == Error::InternalInvariant)
            &&& (er matches Error::UnsupportedParentRewrite { commit } ==> final(e).rewritten_ancestor_witness(g, q, commit))
            &&& (er == Error::CyclicHistory ==> exists|w: Seq<usize>|
                crate::graph::is_path(g, w) && w.len() == g.spec_node_count() + 1)
        },
{
    match e.fwd_of(q) {
        Some(v) => {
            return Ok(v);
        },
        None => {},
    }
    let mut stack: Vec<usize> = Vec::new();
    stack.push(q);
    proof {
        crate::graph::lemma_reaches_self(g, q);
    }
    let mut fuel: u64 = 0xffff_ffff_ffff_ffff;
    while stack.len() > 0
        invariant
            e.wf(),
            g.wf(),
            q < g.spec_node_count(),
            g.spec_node_count() <= e.universe(),
            e.universe() == old(e).universe(),
            e.branch_count() == old(e).branch_count(),
            e.spec_heads() == old(e).spec_heads(),
            e.spec_dirty() == old(e).spec_dirty(),
            old(e).spec_fwd()[q as int] is None,
            forall|k: int|
                0 <= k < old(e).universe() && e.spec_fwd()[k] != (
                #[trigger] old(e).spec_fwd()[k]) ==> old(e).spec_fwd()[k] is None
                    && e.spec_fwd()[k] == Some(k as usize),
            forall|k: int|
                0 <= k < old(e).universe() && old(e).spec_fwd()[k] is Some ==> (
                #[trigger] e.spec_fwd()[k]) == old(e).spec_fwd()[k],
            forall|k: int|
                0 <= k < old(e).universe() && e.spec_fwd()[k] != (
                #[trigger] old(e).spec_fwd()[k]) ==> k < g.spec_node_count() && (forall|j: int|
                    0 <= j < g.parents_of(k).len() ==> e.spec_fwd()[(#[trigger] g.parents_of(
                        k,
                    )[j]) as int] == Some(g.parents_of(k)[j])),
            forall|i: int| 0 <= i < stack@.len() ==> (#[trigger] stack@[i]) < g.spec_node_count(),
            forall|i: int|
                0 <= i < stack@.len() ==> crate::graph::reaches(g, q, #[trigger] stack@[i]),
            forall|i: int|
                0 <= i < stack@.len() - 1 ==> g.parents_of(stack@[i] as int).contains(
                    #[trigger] stack@[i + 1],
                ),
        decreases fuel,
    {
        if stack.len() > g.node_count() {
            proof {
                let w = stack@.subrange(0, g.spec_node_count() as int + 1);
                assert(forall|i: int| 0 <= i < w.len() ==> w[i] == stack@[i]);
                assert(crate::graph::is_path(g, w)) by {
                    assert forall|i: int|
                        0 <= i < w.len() - 1 implies g.parents_of(w[i] as int).contains(
                        w[i + 1],
                    ) by {
                        assert(g.parents_of(stack@[i] as int).contains(stack@[i + 1]));
                    }
                }
                assert(w.len() == g.spec_node_count() + 1);
            }
            return Err(Error::CyclicHistory);
        }
        if fuel == 0 {
            return Err(Error::InternalInvariant);
        }
        fuel = fuel - 1;
        let ghost pre_stack = stack@;
        let x = stack[stack.len() - 1];
        if e.fwd_of(x).is_some() {
            stack.pop();
            proof {
                assert(stack@ =~= pre_stack.drop_last());
            }
        } else {
            let ps_len = g.parent_list(x).len();
            let mut pending: Option<usize> = None;
            let mut all_self = true;
            let ghost mut bad_j: int = 0;
            let mut jj: usize = 0;
            while jj < ps_len
                invariant
                    e.wf(),
                    g.wf(),
                    x < g.spec_node_count(),
                    g.spec_node_count() <= e.universe(),
                    ps_len == g.parents_of(x as int).len(),
                    jj <= ps_len,
                    (pending matches Some(p) ==> p < g.spec_node_count()
                        && g.parents_of(x as int).contains(p)),
                    all_self && pending is None ==> forall|j: int|
                        0 <= j < jj ==> e.spec_fwd()[(#[trigger] g.parents_of(x as int)[
                    j]) as int] == Some(g.parents_of(x as int)[j]),
                    !all_self ==> 0 <= bad_j < jj && ((
                    #[trigger] e.spec_fwd()[g.parents_of(x as int)[bad_j] as int]) matches Some(v)
                        && v != g.parents_of(x as int)[bad_j]),
                decreases ps_len - jj,
            {
                let p = g.parent_list(x)[jj];
                match e.fwd_of(p) {
                    None => {
                        proof {
                            assert(g.parents_of(x as int)[jj as int] == p);
                            assert(g.parents_of(x as int).contains(p));
                        }
                        pending = Some(p);
                        jj = ps_len;
                    },
                    Some(v) => {
                        if v != p {
                            all_self = false;
                            proof {
                                bad_j = jj as int;
                            }
                        }
                        jj += 1;
                    },
                }
            }
            match pending {
                Some(p) => {
                    proof {
                        crate::graph::lemma_reaches_step(g, q, x, p);
                    }
                    stack.push(p);
                    proof {
                        assert(stack@[stack@.len() - 1] == p);
                        assert(stack@[stack@.len() - 2] == x);
                        assert forall|i: int|
                            0 <= i < stack@.len() - 1 implies g.parents_of(
                            stack@[i] as int,
                        ).contains(#[trigger] stack@[i + 1]) by {
                            if i < pre_stack.len() - 1 {
                                assert(stack@[i] == pre_stack[i]);
                                assert(stack@[i + 1] == pre_stack[i + 1]);
                                assert(g.parents_of(pre_stack[i] as int).contains(pre_stack[i
                                    + 1]));
                            }
                        }
                    }
                },
                None => {
                    if !all_self {
                        proof {
                            let ps = g.parents_of(x as int);
                            assert((e.spec_fwd()[ps[bad_j] as int] matches Some(v) && v != ps[
                            bad_j]));
                            assert(e.rewritten_ancestor_witness(g, q, x));
                        }
                        return Err(Error::UnsupportedParentRewrite { commit: x });
                    }
                    if e.inv_of(x).is_some() {
                        return Err(Error::InternalInvariant);
                    }
                    e.record_self(x);
                    stack.pop();
                    proof {
                        assert(stack@ =~= pre_stack.drop_last());
                    }
                },
            }
        }
    }
    match e.fwd_of(q) {
        Some(v) => {
            proof {
                assert(e.spec_fwd()[q as int] != old(e).spec_fwd()[q as int]);
            }
            Ok(v)
        },
        None => Err(Error::InternalInvariant),
    }
}

/// The store's mainline convention for cherry-picking a commit whose diff
/// base is the parent `expected`: 0 for a single-parent commit, the 1-based
/// position of the first occurrence of `expected` for a merge. An error
/// means `expected` is no parent of the commit at all.
fn mainline_of(g: &Graph, node: usize, expected: usize) -> (r: Result<u32, Error>)
    requires
        g.wf(),
        node < g.spec_node_count(),
        g.parents_of(node as int).len() < 0x1_0000_0000,
    ensures
        match r {
            Ok(m) => {
                let ps = g.parents_of(node as int);
                &&& ps.contains(expected)
                &&& (ps.len() == 1 ==> m == 0)
                &&& (ps.len() != 1 ==> 1 <= m as int <= ps.len() && ps[m as int - 1] == expected
                    && (forall|i: int| 0 <= i < m as int - 1 ==> ps[i] != expected))
            },
            Err(er) => er == Error::InternalInvariant && !g.parents_of(node as int).contains(
                expected,
            ),
        },
{
    let ps_len = g.parent_list(node).len();
    let mut mpos: usize = 0;
    let mut found = false;
    let mut j: usize = 0;
    while j < ps_len
        invariant
            g.wf(),
            node < g.spec_node_count(),
            ps_len == g.parents_of(node as int).len(),
            j <= ps_len,
            found ==> mpos < j && g.parents_of(node as int)[mpos as int] == expected && (forall|
                i: int,
            |
                0 <= i < mpos ==> g.parents_of(node as int)[i] != expected),
            !found ==> forall|i: int| 0 <= i < j ==> g.parents_of(node as int)[i] != expected,
        decreases ps_len - j,
    {
        if g.parent_list(node)[j] == expected {
            if !found {
                mpos = j;
                found = true;
            }
            j += 1;
        } else {
            j += 1;
        }
    }
    if !found {
        proof {
            if g.parents_of(node as int).contains(expected) {
                let i = choose|i: int|
                    0 <= i < g.parents_of(node as int).len() && g.parents_of(node as int)[i]
                        == expected;
                assert(g.parents_of(node as int)[i] != expected);
            }
        }
        return Err(Error::InternalInvariant);
    }
    proof {
        assert(g.parents_of(node as int)[mpos as int] == expected);
        assert(g.parents_of(node as int).contains(expected));
    }
    if ps_len == 1 {
        Ok(0)
    } else {
        Ok((mpos + 1) as u32)
    }
}

/// The parent list for the commit replacing item `node`, as store ids and
/// as model indices: the expected parent becomes the pre-pick head
/// `head_t`, and every other parent is replaced by its resolved image. The
/// maps only gain kept-unchanged entries here; heads and dirty flags stay
/// as they are.
#[verifier::rlimit(100)]
fn build_pick_parents(
    e: &mut Engine,
    it: &Interner,
    g: &Graph,
    node: usize,
    expected: usize,
    head_t: usize,
) -> (r: Result<(Vec<Vec<u8>>, Vec<usize>), Error>)
    requires
        old(e).wf(),
        it.wf(),
        g.wf(),
        node < g.spec_node_count(),
        g.spec_node_count() <= old(e).universe(),
        old(e).universe() == it@.len(),
        head_t < old(e).universe(),
    ensures
        final(e).wf(),
        final(e).branch_count() == old(e).branch_count(),
        final(e).universe() == old(e).universe(),
        final(e).spec_heads() == old(e).spec_heads(),
        final(e).spec_dirty() == old(e).spec_dirty(),
        forall|k: int|
            0 <= k < old(e).universe() && final(e).spec_fwd()[k] != (
            #[trigger] old(e).spec_fwd()[k]) ==> old(e).spec_fwd()[k] is None
                && final(e).spec_fwd()[k] == Some(k as usize),
        forall|k: int|
            0 <= k < old(e).universe() && old(e).spec_fwd()[k] is Some ==> (
            #[trigger] final(e).spec_fwd()[k]) == old(e).spec_fwd()[k],
        r matches Ok(pr) ==> {
            &&& pr.0@.len() == g.parents_of(node as int).len()
            &&& pr.1@.len() == g.parents_of(node as int).len()
            &&& forall|x: int|
                0 <= x < pr.1@.len() ==> (#[trigger] pr.1@[x]) < old(e).universe()
            &&& forall|x: int|
                0 <= x < pr.0@.len() ==> (#[trigger] pr.0@[x])@ == it@[pr.1@[x] as int]
            &&& forall|x: int|
                0 <= x < pr.1@.len() && g.parents_of(node as int)[x] == expected ==> (
                #[trigger] pr.1@[x]) == head_t
            &&& forall|x: int|
                0 <= x < pr.1@.len() && g.parents_of(node as int)[x] != expected
                    ==> final(e).spec_fwd()[g.parents_of(node as int)[x] as int] == Some(
                    #[trigger] pr.1@[x],
                )
        },
        r matches Err(er) ==> (er == Error::InternalInvariant || er == Error::CyclicHistory
            || er matches Error::UnsupportedParentRewrite { .. }),
{
    let ps_len = g.parent_list(node).len();
    let mut pvec: Vec<Vec<u8>> = Vec::new();
    let mut rids: Vec<usize> = Vec::new();
    let mut j2: usize = 0;
    while j2 < ps_len
        invariant
            e.wf(),
            it.wf(),
            g.wf(),
            node < g.spec_node_count(),
            g.spec_node_count() <= e.universe(),
            e.universe() == old(e).universe(),
            e.universe() == it@.len(),
            head_t < e.universe(),
            e.branch_count() == old(e).branch_count(),
            e.spec_heads() == old(e).spec_heads(),
            e.spec_dirty() == old(e).spec_dirty(),
            forall|k: int|
                0 <= k < old(e).universe() && e.spec_fwd()[k] != (
                #[trigger] old(e).spec_fwd()[k]) ==> old(e).spec_fwd()[k] is None
                    && e.spec_fwd()[k] == Some(k as usize),
            forall|k: int|
                0 <= k < old(e).universe() && old(e).spec_fwd()[k] is Some ==> (
                #[trigger] e.spec_fwd()[k]) == old(e).spec_fwd()[k],
            ps_len == g.parents_of(node as int).len(),
            j2 <= ps_len,
            pvec@.len() == j2,
            rids@.len() == j2,
            forall|x: int| 0 <= x < j2 ==> (#[trigger] rids@[x]) < e.universe(),
            forall|x: int| 0 <= x < j2 ==> (#[trigger] pvec@[x])@ == it@[rids@[x] as int],
            forall|x: int|
                0 <= x < j2 && g.parents_of(node as int)[x] == expected ==> (#[trigger] rids@[x])
                    == head_t,
            forall|x: int|
                0 <= x < j2 && g.parents_of(node as int)[x] != expected ==> e.spec_fwd()[
                g.parents_of(node as int)[x] as int] == Some(#[trigger] rids@[x]),
        decreases ps_len - j2,
    {
        let ghost pre_rids = rids@;
        let ghost pre_pvec = pvec@;
        let ghost e_before = *e;
        let qn = g.parent_list(node)[j2];
        if qn == expected {
            pvec.push(it.get_owned(head_t));
            rids.push(head_t);
        } else {
            match resolve_outside_parent(e, g, qn) {
                Ok(v) => {
                    pvec.push(it.get_owned(v));
                    rids.push(v);
                },
                Err(er) => {
                    return Err(er);
                },
            }
        }
        j2 += 1;
        proof {
            assert forall|x: int|
                0 <= x < j2 && g.parents_of(node as int)[x] != expected implies e.spec_fwd()[
            g.parents_of(node as int)[x] as int] == Some(#[trigger] rids@[x]) by {
                if x < j2 - 1 {
                    assert(rids@[x] == pre_rids[x]);
                    let q2 = g.parents_of(node as int)[x];
                    assert(e_before.spec_fwd()[q2 as int] == Some(pre_rids[x]));
                    assert(q2 < g.spec_node_count());
                    assert(e.spec_fwd()[q2 as int] == e_before.spec_fwd()[q2 as int]);
                } else {
                    assert(g.parents_of(node as int)[x] == qn);
                }
            }
        }
    }
    Ok((pvec, rids))
}

/// What one caught-up level looks like: clean now, a missing head
/// fast-forwarded to the senior head, an existing head replaced by a merge
/// node whose model parents are the old own head and the senior head.
#[verifier::opaque]
pub open spec fn level_shape(eo: Engine, en: Engine, g: Graph, j: int) -> bool {
    &&& !en.spec_dirty()[j]
    &&& (eo.spec_heads()[j] is None ==> en.spec_heads()[j] == en.spec_heads()[j + 1])
    &&& (eo.spec_heads()[j] matches Some(h) ==> (en.spec_heads()[j] matches Some(m) && m
        < g.spec_node_count() && g.parents_of(m as int) == seq![
        h,
        en.spec_heads()[j + 1].unwrap(),
    ]))
}

/// The shape a catch-up leaves between two engine states, for levels at or
/// above `b`: every dirty level caught up, clean levels keeping their
/// heads.
pub open spec fn caught_up_shape(eo: Engine, en: Engine, g: Graph, b: int) -> bool {
    &&& forall|j: int|
        b <= j < eo.branch_count() && (#[trigger] eo.spec_dirty()[j]) ==> level_shape(eo, en, g, j)
    &&& forall|j: int|
        0 <= j < eo.branch_count() && !(#[trigger] eo.spec_dirty()[j]) ==> en.spec_heads()[j]
            == eo.spec_heads()[j] && !en.spec_dirty()[j]
}

/// Along a catch-up's unwind, a target every old source head reached is
/// reached by every new head of the caught-up range: a fast-forwarded head
/// inherits the senior head's ancestry, a merge head both its parents'.
proof fn lemma_propagate_level(eo: Engine, en: Engine, g: Graph, b: int, t: int, x: usize, j: int)
    requires
        eo.wf(),
        en.wf(),
        g.wf(),
        en.branch_count() == eo.branch_count(),
        0 <= b <= j <= t < eo.branch_count(),
        eo.universe() <= g.spec_node_count(),
        caught_up_shape(eo, en, g, b),
        (eo.spec_heads()[t] matches Some(ht) && crate::graph::reaches(&g, ht, x)),
        forall|j2: int|
            b <= j2 <= t && !(#[trigger] eo.spec_dirty()[j2]) ==> (eo.spec_heads()[j2] matches Some(
                h,
            ) && crate::graph::reaches(&g, h, x)),
    ensures
        en.spec_heads()[j as int] matches Some(h2) && crate::graph::reaches(&g, h2, x),
    decreases t - j,
{
    reveal(crate::engine::level_shape);
    if !eo.spec_dirty()[j] {
        if j == t {
        } else {
        }
    } else {
        assert(level_shape(eo, en, g, j));
        assert(j + 1 < eo.branch_count());
        if j == t {
            let ht = eo.spec_heads()[t].unwrap();
            let m = en.spec_heads()[j].unwrap();
            assert(g.parents_of(m as int)[0] == ht);
            assert(g.parents_of(m as int).contains(ht));
            crate::graph::lemma_reaches_via_parent(&g, m, ht, x);
        } else {
            lemma_propagate_level(eo, en, g, b, t, x, j + 1);
            let h1 = en.spec_heads()[j + 1].unwrap();
            match eo.spec_heads()[j] {
                None => {},
                Some(h) => {
                    let m = en.spec_heads()[j].unwrap();
                    assert(g.parents_of(m as int)[1] == h1);
                    assert(g.parents_of(m as int).contains(h1));
                    crate::graph::lemma_reaches_via_parent(&g, m, h1, x);
                },
            }
        }
    }
}

/// Carries the image placements across one catch-up from branch `b`: heads
/// junior to `b` and clean heads keep their ancestry, and every head the
/// catch-up rebuilt inherits it from its sources.
proof fn lemma_images_after_catch_up(
    eo: Engine,
    en: Engine,
    go: Graph,
    gn: Graph,
    items: Seq<ChainItem>,
    k: int,
    b: int,
)
    requires
        eo.wf(),
        en.wf(),
        go.wf(),
        gn.wf(),
        en.branch_count() == eo.branch_count(),
        0 <= b < eo.branch_count(),
        eo.universe() <= go.spec_node_count(),
        go.spec_node_count() <= gn.spec_node_count(),
        forall|v: int| 0 <= v < go.spec_node_count() ==> gn.parents_of(v) == go.parents_of(v),
        caught_up_shape(eo, en, gn, b),
        forall|j: int|
            0 <= j < b ==> en.spec_heads()[j] == eo.spec_heads()[j] && en.spec_dirty()[j]
                == eo.spec_dirty()[j],
        forall|kk: int|
            k <= kk < items.len() ==> (#[trigger] en.spec_fwd()[items[kk].node as int])
                == eo.spec_fwd()[items[kk].node as int],
        forall|kk: int| k <= kk < items.len() ==> (#[trigger] items[kk]).branch < eo.branch_count(),
        images_on_targets(eo, go, items, k),
        images_on_clean_juniors(eo, go, items, k),
    ensures
        images_on_targets(en, gn, items, k),
        images_on_clean_juniors(en, gn, items, k),
{
    assert forall|kk: int|
        k <= kk < items.len() implies ((#[trigger] en.spec_fwd()[items[kk].node as int]) is Some
        && (en.spec_heads()[items[kk].branch as int] matches Some(h) && gn.reaches_node(
        h,
        en.spec_fwd()[items[kk].node as int].unwrap(),
    ))) by {
        let t = items[kk].branch as int;
        assert(eo.spec_fwd()[items[kk].node as int] is Some);
        let im = eo.spec_fwd()[items[kk].node as int].unwrap();
        assert(eo.spec_heads()[t] is Some);
        let ho = eo.spec_heads()[t].unwrap();
        assert(go.reaches_node(ho, im));
        crate::graph::lemma_extend_reaches(&go, &gn, ho, im);
        if t >= b {
            assert forall|j2: int|
                b <= j2 <= t && !(#[trigger] eo.spec_dirty()[j2]) implies (eo.spec_heads()[
            j2] matches Some(h3) && crate::graph::reaches(&gn, h3, im)) by {
                assert(eo.spec_heads()[j2] is Some);
                let h3 = eo.spec_heads()[j2].unwrap();
                assert(go.reaches_node(h3, im));
                crate::graph::lemma_extend_reaches(&go, &gn, h3, im);
            }
            lemma_propagate_level(eo, en, gn, b, t, im, t);
        } else {
            assert(en.spec_heads()[t] == eo.spec_heads()[t]);
        }
    }
    assert forall|kk: int, j: int|
        #![trigger items[kk], en.spec_heads()[j]]
        k <= kk < items.len() && 0 <= j <= items[kk].branch && !en.spec_dirty()[j] implies (
    en.spec_heads()[j] matches Some(h) && gn.reaches_node(
        h,
        en.spec_fwd()[items[kk].node as int].unwrap(),
    )) by {
        let t = items[kk].branch as int;
        assert(eo.spec_fwd()[items[kk].node as int] is Some);
        let im = eo.spec_fwd()[items[kk].node as int].unwrap();
        assert(eo.spec_heads()[t] is Some);
        let ho = eo.spec_heads()[t].unwrap();
        assert(go.reaches_node(ho, im));
        crate::graph::lemma_extend_reaches(&go, &gn, ho, im);
        if j >= b {
            assert forall|j2: int|
                b <= j2 <= t && !(#[trigger] eo.spec_dirty()[j2]) implies (eo.spec_heads()[
            j2] matches Some(h3) && crate::graph::reaches(&gn, h3, im)) by {
                assert(eo.spec_heads()[j2] is Some);
                let h3 = eo.spec_heads()[j2].unwrap();
                assert(go.reaches_node(h3, im));
                crate::graph::lemma_extend_reaches(&go, &gn, h3, im);
            }
            lemma_propagate_level(eo, en, gn, b, t, im, j);
        } else {
            assert(en.spec_heads()[j] == eo.spec_heads()[j]);
            assert(!eo.spec_dirty()[j]);
            assert(eo.spec_heads()[j] is Some);
            let h4 = eo.spec_heads()[j].unwrap();
            assert(go.reaches_node(h4, im));
            crate::graph::lemma_extend_reaches(&go, &gn, h4, im);
        }
    }
}

/// Carries the image placements across one cherry-pick: the picked item's
/// image is the new head of its target branch, whose parents include the
/// branch's previous head, so every image already on that head (or on an
/// untouched clean head) stays in reach.
proof fn lemma_images_after_pick(
    ea: Engine,
    eb: Engine,
    ga: Graph,
    gb: Graph,
    items: Seq<ChainItem>,
    k: int,
    t: int,
    nidx: usize,
    head_t: usize,
)
    requires
        ea.wf(),
        eb.wf(),
        ga.wf(),
        gb.wf(),
        eb.branch_count() == ea.branch_count(),
        0 <= k < items.len(),
        items[k].branch == t,
        0 <= t < ea.branch_count(),
        ga.spec_node_count() <= gb.spec_node_count(),
        forall|v: int| 0 <= v < ga.spec_node_count() ==> gb.parents_of(v) == ga.parents_of(v),
        nidx < gb.spec_node_count(),
        gb.parents_of(nidx as int).contains(head_t),
        ea.spec_heads()[t] == Some(head_t),
        !ea.spec_dirty()[t],
        eb.spec_fwd()[items[k].node as int] == Some(nidx),
        forall|kk: int|
            k + 1 <= kk < items.len() ==> (#[trigger] eb.spec_fwd()[items[kk].node as int])
                == ea.spec_fwd()[items[kk].node as int],
        eb.spec_heads() == ea.spec_heads().update(t, Some(nidx)),
        forall|j: int|
            0 <= j < ea.branch_count() ==> (#[trigger] eb.spec_dirty()[j]) == (ea.spec_dirty()[j]
                || j < t),
        forall|kk: int| k <= kk < items.len() ==> (#[trigger] items[kk]).branch < ea.branch_count(),
        images_on_targets(ea, ga, items, k + 1),
        images_on_clean_juniors(ea, ga, items, k + 1),
    ensures
        images_on_targets(eb, gb, items, k),
        images_on_clean_juniors(eb, gb, items, k),
{
    assert forall|kk: int|
        k <= kk < items.len() implies ((#[trigger] eb.spec_fwd()[items[kk].node as int]) is Some
        && (eb.spec_heads()[items[kk].branch as int] matches Some(h) && gb.reaches_node(
        h,
        eb.spec_fwd()[items[kk].node as int].unwrap(),
    ))) by {
        if kk == k {
            assert(eb.spec_heads()[t] == Some(nidx));
            crate::graph::lemma_reaches_self(&gb, nidx);
        } else {
            assert(ea.spec_fwd()[items[kk].node as int] is Some);
            let im = ea.spec_fwd()[items[kk].node as int].unwrap();
            assert(eb.spec_fwd()[items[kk].node as int] == Some(im));
            let told = items[kk].branch as int;
            assert(ea.spec_heads()[told] is Some);
            let hold = ea.spec_heads()[told].unwrap();
            assert(ga.reaches_node(hold, im));
            crate::graph::lemma_extend_reaches(&ga, &gb, hold, im);
            if told == t {
                assert(hold == head_t);
                crate::graph::lemma_reaches_via_parent(&gb, nidx, head_t, im);
                assert(eb.spec_heads()[told] == Some(nidx));
            } else {
                assert(eb.spec_heads()[told] == ea.spec_heads()[told]);
            }
        }
    }
    assert forall|kk: int, j: int|
        #![trigger items[kk], eb.spec_heads()[j]]
        k <= kk < items.len() && 0 <= j <= items[kk].branch && !eb.spec_dirty()[j] implies (
    eb.spec_heads()[j] matches Some(h) && gb.reaches_node(
        h,
        eb.spec_fwd()[items[kk].node as int].unwrap(),
    )) by {
        assert(!ea.spec_dirty()[j] && j >= t);
        if kk == k {
            assert(j == t);
            assert(eb.spec_heads()[t] == Some(nidx));
            crate::graph::lemma_reaches_self(&gb, nidx);
        } else {
            assert(ea.spec_fwd()[items[kk].node as int] is Some);
            let im = ea.spec_fwd()[items[kk].node as int].unwrap();
            assert(eb.spec_fwd()[items[kk].node as int] == Some(im));
            if j == t {
                assert(ea.spec_heads()[t] is Some);
                assert(ga.reaches_node(head_t, im));
                crate::graph::lemma_extend_reaches(&ga, &gb, head_t, im);
                crate::graph::lemma_reaches_via_parent(&gb, nidx, head_t, im);
                assert(eb.spec_heads()[j] == Some(nidx));
            } else {
                assert(!ea.spec_dirty()[j]);
                assert(eb.spec_heads()[j] == ea.spec_heads()[j]);
                assert(ea.spec_heads()[j] is Some);
                let hj = ea.spec_heads()[j].unwrap();
                assert(ga.reaches_node(hj, im));
                crate::graph::lemma_extend_reaches(&ga, &gb, hj, im);
            }
        }
    }
}

/// Every item from position `k` on has been rewritten, and its image lies
/// in the ancestry of its target branch's head.
pub open spec fn images_on_targets(e: Engine, g: Graph, items: Seq<ChainItem>, k: int) -> bool {
    forall|kk: int|
        k <= kk < items.len() ==> ((#[trigger] e.spec_fwd()[items[kk].node as int]) is Some && (
        e.spec_heads()[items[kk].branch as int] matches Some(h) && g.reaches_node(
            h,
            e.spec_fwd()[items[kk].node as int].unwrap(),
        )))
}

/// ... and in the ancestry of every caught-up (clean) head at or junior to
/// the target.
pub open spec fn images_on_clean_juniors(e: Engine, g: Graph, items: Seq<ChainItem>, k: int) -> bool {
    forall|kk: int, j: int|
        #![trigger items[kk], e.spec_heads()[j]]
        k <= kk < items.len() && 0 <= j <= items[kk].branch && !e.spec_dirty()[j] ==> (
        e.spec_heads()[j] matches Some(h) && g.reaches_node(
            h,
            e.spec_fwd()[items[kk].node as int].unwrap(),
        ))
}

/// What a completed rewrite leaves behind: an engine state whose invariants
/// hold, every branch clean and caught up, the returned heads exactly its
/// per-branch heads, every collected commit rewritten (its node in the
/// forward map's domain), every item's image in the model ancestry of the
/// head of its target branch and of every more junior branch, and the most
/// senior head still the most senior tip when no collected commit was
/// assigned to the most senior branch.
pub open spec fn rewrite_outcome_ok(
    fin: Engine,
    g: Graph,
    items: Seq<ChainItem>,
    tips: Seq<usize>,
    nb: int,
    heads: Seq<usize>,
) -> bool {
    &&& fin.wf()
    &&& fin.branch_count() == nb
    &&& heads.len() == nb
    &&& forall|j: int| 0 <= j < nb ==> !(#[trigger] fin.spec_dirty()[j])
    &&& forall|j: int| 0 <= j < nb ==> fin.spec_heads()[j] == Some(#[trigger] heads[j])
    &&& forall|kk: int|
        0 <= kk < items.len() ==> (#[trigger] fin.spec_fwd()[items[kk].node as int]) is Some
    &&& forall|kk: int, j: int|
        #![trigger items[kk], heads[j]]
        0 <= kk < items.len() && 0 <= j <= items[kk].branch && items[kk].branch < nb
            ==> g.reaches_node(heads[j], fin.spec_fwd()[items[kk].node as int].unwrap())
    &&& ((forall|kk: int| 0 <= kk < items.len() ==> (#[trigger] items[kk]).branch != nb - 1)
        ==> heads[nb - 1] == tips[nb - 1])
}

/// Rewrites the collected history, oldest to newest: each item is brought
/// onto its (possibly reassigned) target branch by first catching that
/// branch up with its seniors, then cherry-picking the item's commit onto
/// the branch head, replacing the expected parent by that head and every
/// other parent by its resolved image; commits the fork table marks are
/// followed at once by a catch-up of the recorded branch. Afterwards the
/// head branch is caught up, which leaves every branch clean and with a
/// head; the final heads are returned, juniormost first.
#[verifier::rlimit(100)]
#[verifier::spinoff_prover]
pub fn rewrite_history(
    repo: &git2::Repository,
    g: &mut Graph,
    it: &mut Interner,
    items: &Vec<ChainItem>,
    forks: &Vec<Option<usize>>,
    names: &Vec<String>,
    tips: &Vec<usize>,
) -> (r: Result<Vec<usize>, Error>)
    requires
        old(it).wf(),
        old(g).wf(),
        old(g).spec_node_count() == old(it)@.len(),
        forall|k: int|
            0 <= k < items@.len() ==> (#[trigger] items@[k]).node < old(g).spec_node_count(),
        forall|i: int|
            0 <= i < tips@.len() ==> (#[trigger] tips@[i]) < old(g).spec_node_count(),
        forks@.len() == old(g).spec_node_count(),
    ensures
        final(it).wf(),
        final(g).wf(),
        final(g).spec_node_count() == final(it)@.len(),
        forall|v: int|
            0 <= v < old(g).spec_node_count() ==> final(g).parents_of(v) == old(g).parents_of(v),
        old(it)@.is_prefix_of(final(it)@),
        (names@.len() < 2 || tips@.len() != names@.len() || items@.len() == 0) ==> r == Err::<
            Vec<usize>,
            Error,
        >(Error::InternalInvariant),
        r matches Err(er) ==> (er == Error::InternalInvariant || er matches Error::InvalidEdit {
            ..
        } || (er matches Error::Store { op, .. } && (op == StoreOp::Merge || op
            == StoreOp::WriteCommit || op == StoreOp::CherryPick)) || er == Error::CyclicHistory
            || er matches Error::UnsupportedParentRewrite { .. }),
        (names@.len() >= 2 && tips@.len() == names@.len() && items@.len() > 0 && items@[items@.len()
            - 1].branch >= names@.len()) ==> r == Err::<Vec<usize>, Error>(
            Error::InvalidEdit {
                index: (items@.len() - 1) as usize,
                branch: items@[items@.len() - 1].branch,
            },
        ),
        r matches Ok(heads) ==> heads@.len() == names@.len() && (forall|j: int|
            0 <= j < heads@.len() ==> (#[trigger] heads@[j]) < final(it)@.len()) && (exists|
            fin: Engine,
        |
            rewrite_outcome_ok(fin, *final(g), items@, tips@, names@.len() as int, heads@)),
{
    let nb = names.len();
    if nb < 2 || tips.len() != nb || items.len() == 0 {
        return Err(Error::InternalInvariant);
    }
    let anchor = items[items.len() - 1];
    if anchor.branch >= nb {
        return Err(Error::InvalidEdit { index: items.len() - 1, branch: anchor.branch });
    }
    let base = tips[nb - 1];
    let mut e = match Engine::init(nb, anchor.node, anchor.branch, base, it.len()) {
        Ok(e) => e,
        Err(er) => {
            return Err(er);
        },
    };
    proof {
        if forall|kk: int| 0 <= kk < items@.len() ==> (#[trigger] items@[kk]).branch != nb - 1 {
            assert(items@[items@.len() - 1].branch != nb - 1);
        }
        let g0 = *g;
        crate::graph::lemma_reaches_self(&g0, anchor.node);
        assert forall|kk: int|
            items@.len() - 1 <= kk < items@.len() implies ((#[trigger] e.spec_fwd()[items@[
        kk].node as int]) is Some && (e.spec_heads()[items@[kk].branch as int] matches Some(h)
            && g0.reaches_node(h, e.spec_fwd()[items@[kk].node as int].unwrap()))) by {
            assert(e.spec_fwd()[anchor.node as int] == Some(anchor.node));
            assert(e.spec_heads()[anchor.branch as int] == Some(anchor.node));
        }
        assert(images_on_targets(e, *g, items@, items@.len() - 1));
        assert forall|kk: int, j: int|
            #![trigger items@[kk], e.spec_heads()[j]]
            items@.len() - 1 <= kk < items@.len() && 0 <= j <= items@[kk].branch
                && !e.spec_dirty()[j] implies (e.spec_heads()[j] matches Some(h)
            && g0.reaches_node(h, e.spec_fwd()[items@[kk].node as int].unwrap())) by {
            assert(j == anchor.branch as int);
            assert(e.spec_heads()[anchor.branch as int] == Some(anchor.node));
        }
        assert(images_on_clean_juniors(e, *g, items@, items@.len() - 1));
    }
    let mut k = items.len() - 1;
    while k > 0
        invariant
            e.wf(),
            it.wf(),
            g.wf(),
            nb >= 2,
            nb == e.branch_count(),
            names@.len() == nb,
            tips@.len() == nb,
            base == tips@[nb - 1],
            e.universe() == it@.len(),
            g.spec_node_count() == it@.len(),
            old(g).spec_node_count() <= g.spec_node_count(),
            forall|v: int|
                0 <= v < old(g).spec_node_count() ==> g.parents_of(v) == old(g).parents_of(v),
            old(it)@.is_prefix_of(it@),
            forall|kk: int|
                0 <= kk < items@.len() ==> (#[trigger] items@[kk]).node < old(g).spec_node_count(),
            forks@.len() == old(g).spec_node_count(),
            k < items@.len(),
            items@[items@.len() - 1].branch < nb,
            forall|kk: int| k <= kk < items@.len() ==> (#[trigger] items@[kk]).branch < nb,
            forall|kk: int|
                k <= kk < items@.len() ==> (#[trigger] e.spec_fwd()[items@[kk].node as int]) is Some,
            images_on_targets(e, *g, items@, k as int),
            images_on_clean_juniors(e, *g, items@, k as int),
            (forall|kk: int|
                0 <= kk < items@.len() ==> (#[trigger] items@[kk]).branch != nb - 1)
                ==> e.spec_heads()[nb - 1] == Some(base),
        decreases k,
    {
        k -= 1;
        let item = items[k];
        let expected = items[k + 1].node;
        let t = item.branch;
        if t >= nb {
            return Err(Error::InvalidEdit { index: k, branch: t });
        }
        let ghost e_before_catch = e;
        let ghost g_before_catch = *g;
        match catch_up_branch(&mut e, g, it, repo, names, t) {
            Ok(_) => {},
            Err(er) => {
                return Err(er);
            },
        }
        proof {
            lemma_prefix_index(e_before_catch.spec_fwd(), e.spec_fwd());
            assert forall|v: int|
                0 <= v < old(g).spec_node_count() implies g.parents_of(v) == old(g).parents_of(
                v,
            ) by {
                assert(v < g_before_catch.spec_node_count());
                assert(g.parents_of(v) == g_before_catch.parents_of(v));
            }
            if forall|kk: int|
                0 <= kk < items@.len() ==> (#[trigger] items@[kk]).branch != nb - 1 {
                assert(!e_before_catch.spec_dirty()[nb - 1]);
                assert(e.spec_heads()[nb - 1] == e_before_catch.spec_heads()[nb - 1]);
            }
            assert(caught_up_shape(e_before_catch, e, *g, t as int));
            assert forall|kk: int|
                k + 1 <= kk < items@.len() implies (#[trigger] e.spec_fwd()[items@[
            kk].node as int]) == e_before_catch.spec_fwd()[items@[kk].node as int] by {
                assert(items@[kk].node < e_before_catch.universe());
            }
            lemma_images_after_catch_up(
                e_before_catch,
                e,
                g_before_catch,
                *g,
                items@,
                k + 1,
                t as int,
            );
        }
        if g.parent_list(item.node).len() >= 0xffff_ffff {
            return Err(Error::InternalInvariant);
        }
        let mainline = match mainline_of(g, item.node, expected) {
            Ok(m) => m,
            Err(er) => {
                return Err(er);
            },
        };
        let head_t = e.head_of(t).unwrap();
        let ghost e_before_parents = e;
        let (pvec, rids) = match build_pick_parents(&mut e, it, g, item.node, expected, head_t) {
            Ok(p) => p,
            Err(er) => {
                return Err(er);
            },
        };
        proof {
            assert forall|kk: int|
                0 <= kk < items@.len() && kk > k implies (#[trigger] e.spec_fwd()[items@[
            kk].node as int]) is Some by {
                assert(e_before_parents.spec_fwd()[items@[kk].node as int] is Some || kk <= k);
                assert(items@[kk].node < e_before_parents.universe());
            }
            let gcur = *g;
            assert forall|kk: int|
                k + 1 <= kk < items@.len() implies ((#[trigger] e.spec_fwd()[items@[
            kk].node as int]) is Some && (e.spec_heads()[items@[kk].branch as int] matches Some(h)
                && gcur.reaches_node(h, e.spec_fwd()[items@[kk].node as int].unwrap()))) by {
                assert(e_before_parents.spec_fwd()[items@[kk].node as int] is Some);
                assert(items@[kk].node < e_before_parents.universe());
                assert(e.spec_fwd()[items@[kk].node as int] == e_before_parents.spec_fwd()[items@[
                kk].node as int]);
            }
            assert(images_on_targets(e, *g, items@, k + 1));
            assert forall|kk: int, j: int|
                #![trigger items@[kk], e.spec_heads()[j]]
                k + 1 <= kk < items@.len() && 0 <= j <= items@[kk].branch && !e.spec_dirty()[
            j] implies (e.spec_heads()[j] matches Some(h) && gcur.reaches_node(
                h,
                e.spec_fwd()[items@[kk].node as int].unwrap(),
            )) by {
                assert(e_before_parents.spec_fwd()[items@[kk].node as int] is Some);
                assert(items@[kk].node < e_before_parents.universe());
                assert(e.spec_fwd()[items@[kk].node as int] == e_before_parents.spec_fwd()[items@[
                kk].node as int]);
            }
            assert(images_on_clean_juniors(e, *g, items@, k + 1));
        }
        let tree = match store::cherrypick_tree_of(
            repo,
            it.get(item.node),
            it.get(head_t),
            mainline,
        ) {
            Ok(tr) => tr,
            Err(m) => {
                return Err(store_err(StoreOp::CherryPick, m));
            },
        };
        let newc = match store::create_picked_commit(repo, it.get(item.node), &tree, &pvec) {
            Ok(c) => c,
            Err(m) => {
                return Err(store_err(StoreOp::WriteCommit, m));
            },
        };
        let ghost e_at_pick = e;
        let ghost g_at_pick = *g;
        let (nidx, fresh) = it.intern(newc);
        if !fresh {
            return Err(Error::InternalInvariant);
        }
        let gn = g.add_node();
        proof {
            assert(gn == nidx);
        }
        let okp = g.set_parents(nidx, rids);
        if !okp {
            return Err(Error::InternalInvariant);
        }
        e.grow_universe(it.len());
        proof {
            lemma_prefix_index(e_at_pick.spec_fwd(), e.spec_fwd());
            assert forall|v: int|
                0 <= v < old(g).spec_node_count() implies g.parents_of(v) == old(g).parents_of(
                v,
            ) by {
                assert(v < g_at_pick.spec_node_count());
                assert(g.parents_of(v) == g_at_pick.parents_of(v));
            }
        }
        if e.fwd_of(item.node).is_some() {
            return Err(Error::InternalInvariant);
        }
        if e.inv_of(nidx).is_some() {
            return Err(Error::InternalInvariant);
        }
        e.record_pick(item.node, nidx, t);
        proof {
            assert forall|kk: int|
                k <= kk < items@.len() implies (#[trigger] e.spec_fwd()[items@[kk].node as int]) is Some by {
                if kk > k {
                    assert(e_at_pick.spec_fwd()[items@[kk].node as int] is Some);
                }
            }
            if forall|kk: int|
                0 <= kk < items@.len() ==> (#[trigger] items@[kk]).branch != nb - 1 {
                assert(items@[k as int].branch != nb - 1);
                assert(e.spec_heads()[nb - 1] == e_at_pick.spec_heads()[nb - 1]);
            }
            let gcur = *g;
            assert(images_on_targets(e_at_pick, g_at_pick, items@, k + 1));
            assert(images_on_clean_juniors(e_at_pick, g_at_pick, items@, k + 1));
            assert(nidx < gcur.spec_node_count());
            assert(gcur.parents_of(nidx as int) == rids@);
            assert(e_at_pick.spec_heads()[t as int] == Some(head_t));
            assert(!e_at_pick.spec_dirty()[t as int]);
            assert(gcur.parents_of(item.node as int) == g_at_pick.parents_of(item.node as int));
            assert(g_at_pick.parents_of(item.node as int).contains(expected));
            let xi = choose|xi: int|
                0 <= xi < g_at_pick.parents_of(item.node as int).len() && g_at_pick.parents_of(
                    item.node as int,
                )[xi] == expected;
            assert(rids@[xi] == head_t);
            assert(rids@.contains(head_t));
            assert(gcur.parents_of(nidx as int).contains(head_t));
            assert(e_at_pick.spec_fwd()[item.node as int] is None);
            assert forall|kk: int|
                k + 1 <= kk < items@.len() implies (#[trigger] e.spec_fwd()[items@[
            kk].node as int]) == e_at_pick.spec_fwd()[items@[kk].node as int] by {
                assert(e_at_pick.spec_fwd()[items@[kk].node as int] is Some);
                assert(items@[kk].node < e_at_pick.universe());
                assert(items@[kk].node != item.node);
            }
            lemma_images_after_pick(
                e_at_pick,
                e,
                g_at_pick,
                gcur,
                items@,
                k as int,
                t as int,
                nidx,
                head_t,
            );
            assert(images_on_targets(e, *g, items@, k as int));
            assert(images_on_clean_juniors(e, *g, items@, k as int));
        }
        match forks[item.node] {
            Some(fb) => {
                if fb >= nb {
                    return Err(Error::InternalInvariant);
                }
                let ghost e_before_fork = e;
                let ghost g_before_fork = *g;
                match catch_up_branch(&mut e, g, it, repo, names, fb) {
                    Ok(_) => {},
                    Err(er) => {
                        return Err(er);
                    },
                }
                proof {
                    lemma_prefix_index(e_before_fork.spec_fwd(), e.spec_fwd());
                    assert forall|v: int|
                        0 <= v < old(g).spec_node_count() implies g.parents_of(v) == old(g).parents_of(v) by {
                        assert(v < g_before_fork.spec_node_count());
                        assert(g.parents_of(v) == g_before_fork.parents_of(v));
                    }
                    assert forall|kk: int|
                        k <= kk < items@.len() implies (#[trigger] e.spec_fwd()[items@[
                    kk].node as int]) is Some by {
                        assert(e_before_fork.spec_fwd()[items@[kk].node as int] is Some);
                    }
                    if forall|kk: int|
                        0 <= kk < items@.len() ==> (#[trigger] items@[kk]).branch != nb - 1 {
                        assert(!e_before_fork.spec_dirty()[nb - 1]);
                        assert(e.spec_heads()[nb - 1] == e_before_fork.spec_heads()[nb - 1]);
                    }
                    assert(caught_up_shape(e_before_fork, e, *g, fb as int));
                    assert forall|kk: int|
                        k <= kk < items@.len() implies (#[trigger] e.spec_fwd()[items@[
                    kk].node as int]) == e_before_fork.spec_fwd()[items@[kk].node as int] by {
                        assert(items@[kk].node < e_before_fork.universe());
                    }
                    lemma_images_after_catch_up(
                        e_before_fork,
                        e,
                        g_before_fork,
                        *g,
                        items@,
                        k as int,
                        fb as int,
                    );
                }
            },
            None => {},
        }
    }
    let ghost e_before_final = e;
    let ghost g_before_final = *g;
    match catch_up_branch(&mut e, g, it, repo, names, 0) {
        Ok(_) => {},
        Err(er) => {
            return Err(er);
        },
    }
    proof {
        lemma_prefix_index(e_before_final.spec_fwd(), e.spec_fwd());
        assert forall|v: int|
            0 <= v < old(g).spec_node_count() implies g.parents_of(v) == old(g).parents_of(
            v,
        ) by {
            assert(v < g_before_final.spec_node_count());
            assert(g.parents_of(v) == g_before_final.parents_of(v));
        }
        assert forall|j: int| 0 <= j < e.branch_count() implies !e.spec_dirty()[j] by {
            if e.spec_dirty()[j] {
                assert(e.spec_dirty()[0]);
            }
        }
        assert forall|kk: int|
            0 <= kk < items@.len() implies (#[trigger] e.spec_fwd()[items@[kk].node as int]) is Some by {
            assert(e_before_final.spec_fwd()[items@[kk].node as int] is Some);
        }
        if forall|kk: int|
            0 <= kk < items@.len() ==> (#[trigger] items@[kk]).branch != nb - 1 {
            assert(!e_before_final.spec_dirty()[nb - 1]);
            assert(e.spec_heads()[nb - 1] == e_before_final.spec_heads()[nb - 1]);
        }
        assert(caught_up_shape(e_before_final, e, *g, 0));
        assert forall|kk: int|
            0 <= kk < items@.len() implies (#[trigger] e.spec_fwd()[items@[kk].node as int])
            == e_before_final.spec_fwd()[items@[kk].node as int] by {
            assert(items@[kk].node < e_before_final.universe());
        }
        lemma_images_after_catch_up(e_before_final, e, g_before_final, *g, items@, 0, 0);
    }
    let mut out: Vec<usize> = Vec::new();
    let mut j3: usize = 0;
    while j3 < nb
        invariant
            e.wf(),
            nb == e.branch_count(),
            forall|j: int| 0 <= j < e.branch_count() ==> !e.spec_dirty()[j],
            e.universe() == it@.len(),
            j3 <= nb,
            out@.len() == j3,
            forall|x: int| 0 <= x < out@.len() ==> (#[trigger] out@[x]) < e.universe(),
            forall|x: int|
                0 <= x < out@.len() ==> e.spec_heads()[x] == Some(#[trigger] out@[x]),
        decreases nb - j3,
    {
        proof {
            assert(!e.spec_dirty()[j3 as int]);
            assert(e.spec_heads()[j3 as int] is Some);
        }
        out.push(e.head_of(j3).unwrap());
        j3 += 1;
    }
    proof {
        let gfin = *g;
        assert forall|kk: int, j: int|
            #![trigger items@[kk], out@[j]]
            0 <= kk < items@.len() && 0 <= j <= items@[kk].branch && items@[kk].branch
                < nb implies gfin.reaches_node(
            out@[j],
            e.spec_fwd()[items@[kk].node as int].unwrap(),
        ) by {
            assert(!e.spec_dirty()[j]);
            assert(e.spec_heads()[j] is Some);
            assert(e.spec_heads()[j] == Some(out@[j]));
        }
        assert(rewrite_outcome_ok(e, gfin, items@, tips@, nb as int, out@));
        assert(rewrite_outcome_ok(e, *g, items@, tips@, names@.len() as int, out@));
        assert(exists|fin: Engine|
            rewrite_outcome_ok(fin, *g, items@, tips@, names@.len() as int, out@));
    }
    Ok(out)
}

} // verus!
