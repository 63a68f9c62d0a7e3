use git_backport::chain::ChainItem;
use git_backport::chain::collect_chain;
use git_backport::edit::apply_edits;
use git_backport::error::Error;
use git_backport::forks::detect_forks;
use git_backport::graph::Graph;
use git_backport::graph::mark_reachable;
use git_backport::graph::no_barrier_vec;
use git_backport::ids::Interner;

fn graph_from(parents: &[&[usize]]) -> Graph {
    let mut g = Graph::new();
    for _ in 0..parents.len() {
        g.add_node();
    }
    for (v, ps) in parents.iter().enumerate() {
        assert!(g.set_parents(v, ps.to_vec()));
    }
    g
}

#[test]
fn interner_assigns_dense_unique_indices() {
    let mut it = Interner::new();
    let (a, fresh_a) = it.intern(vec![1, 2, 3]);
    let (b, fresh_b) = it.intern(vec![4, 5]);
    let (a2, fresh_a2) = it.intern(vec![1, 2, 3]);
    assert_eq!(a, 0);
    assert_eq!(b, 1);
    assert_eq!(a2, a);
    assert!(fresh_a && fresh_b && !fresh_a2);
    assert_eq!(it.len(), 2);
    assert_eq!(it.get(0), &vec![1, 2, 3]);
    assert_eq!(it.lookup(&vec![4, 5]), Some(1));
    assert_eq!(it.lookup(&vec![9]), None);
}

#[test]
fn reachability_follows_parent_edges() {
    // 0 -> 1 -> 2, and 3 isolated
    let g = graph_from(&[&[1], &[2], &[], &[]]);
    let nb = no_barrier_vec(4);
    let marks = mark_reachable(&g, &vec![0], &nb);
    assert_eq!(marks, vec![true, true, true, false]);
    let marks2 = mark_reachable(&g, &vec![1], &nb);
    assert_eq!(marks2, vec![false, true, true, false]);
}

#[test]
fn reachability_stops_at_barrier() {
    // 0 -> 1 -> 2; barrier at 1: 1 is reached but never crossed
    let g = graph_from(&[&[1], &[2], &[]]);
    let barrier = vec![false, true, false];
    let marks = mark_reachable(&g, &vec![0], &barrier);
    assert_eq!(marks, vec![true, true, false]);
}

#[test]
fn collect_walks_single_parent_chain() {
    // 0 -> 1 -> 2 (senior tip)
    let g = graph_from(&[&[1], &[2], &[]]);
    let items = collect_chain(&g, &vec![0, 2]).unwrap();
    assert_eq!(items.len(), 2);
    assert_eq!(items[0], ChainItem { node: 0, branch: 0 });
    assert_eq!(items[1], ChainItem { node: 1, branch: 0 });
}

#[test]
fn collect_labels_segments_by_branch_pair() {
    // main: 0 -> 1 (release tip); release: 1 -> 2 (stable tip)
    let g = graph_from(&[&[1], &[2], &[]]);
    let items = collect_chain(&g, &vec![0, 1, 2]).unwrap();
    assert_eq!(items.len(), 2);
    assert_eq!(items[0], ChainItem { node: 0, branch: 0 });
    assert_eq!(items[1], ChainItem { node: 1, branch: 1 });
}

#[test]
fn collect_skips_pair_with_equal_tips() {
    let g = graph_from(&[&[1], &[2], &[]]);
    let items = collect_chain(&g, &vec![0, 0, 2]).unwrap();
    assert_eq!(items.len(), 2);
    assert_eq!(items[0].branch, 1);
    assert_eq!(items[1].branch, 1);
}

#[test]
fn collect_is_empty_when_all_tips_equal() {
    let g = graph_from(&[&[1], &[2], &[]]);
    let items = collect_chain(&g, &vec![2, 2]).unwrap();
    assert_eq!(items.len(), 0);
}

#[test]
fn collect_needs_two_branches() {
    let g = graph_from(&[&[]]);
    assert_eq!(collect_chain(&g, &vec![0]), Err(Error::EmptyBranchChain));
}

#[test]
fn collect_follows_merged_in_branch_of_a_merge() {
    // merge 0 with parents [1 (old mainline), 2 (merged-in)], both of which
    // reach the senior tip 3 through the shared node 1's history:
    //   1 -> 3, 2 -> 1: the walk follows the last-listed parent 2.
    let g = graph_from(&[&[1, 2], &[3], &[1], &[]]);
    let items = collect_chain(&g, &vec![0, 3]).unwrap();
    let nodes: Vec<usize> = items.iter().map(|i| i.node).collect();
    assert_eq!(nodes, vec![0, 2, 1]);
}

#[test]
fn collect_rejects_independent_double_reach() {
    // merge 0 with parents [1, 2], each reaching the senior tip 3 by a
    // route of its own: the ambiguity is fatal.
    let g = graph_from(&[&[1, 2], &[3], &[3], &[]]);
    match collect_chain(&g, &vec![0, 3]) {
        Err(Error::AmbiguousAncestor { commit, branch }) => {
            assert_eq!(commit, 0);
            assert_eq!(branch, 0);
        },
        other => panic!("expected an ambiguous-ancestor error, got {:?}", other),
    }
}

#[test]
fn collect_rejects_dead_end() {
    // 0's only listed parents [1, 2] reach no senior tip 3 at all.
    let g = graph_from(&[&[1, 2], &[], &[], &[]]);
    match collect_chain(&g, &vec![0, 3]) {
        Err(Error::AmbiguousAncestor { commit, .. }) => assert_eq!(commit, 0),
        other => panic!("expected an ambiguous-ancestor error, got {:?}", other),
    }
}

#[test]
fn collect_reports_a_cycle() {
    // a self-parented node can never meet the senior tip
    let g = graph_from(&[&[0], &[]]);
    assert_eq!(collect_chain(&g, &vec![0, 1]), Err(Error::CyclicHistory));
}

#[test]
fn forks_record_most_senior_discoverer() {
    // chain: item 0 (node 0, branch 0) -> item 1 (node 1, branch 1).
    // node 4 is a side parent of both chain commits and leads back to the
    // chain commit 1, so 1 is a fork; the more senior discoverer (branch 1)
    // must win.
    let g = graph_from(&[&[1, 4], &[2, 4], &[], &[], &[1]]);
    let items = vec![
        ChainItem { node: 0, branch: 0 },
        ChainItem { node: 1, branch: 1 },
    ];
    let forks = detect_forks(&g, &items);
    assert_eq!(forks, vec![None, Some(1), None, None, None]);
}

#[test]
fn forks_ignore_side_chains_reaching_nothing() {
    // the side parent 2 of item 0 leads nowhere near the chain
    let g = graph_from(&[&[1, 2], &[], &[3], &[]]);
    let items = vec![
        ChainItem { node: 0, branch: 0 },
        ChainItem { node: 1, branch: 0 },
    ];
    let forks = detect_forks(&g, &items);
    assert_eq!(forks, vec![None, None, None, None]);
}

#[test]
fn edits_apply_in_order_last_wins() {
    let mut items = vec![
        ChainItem { node: 7, branch: 0 },
        ChainItem { node: 8, branch: 0 },
    ];
    apply_edits(&mut items, &vec![(0, 1), (1, 2), (0, 2)], 3).unwrap();
    assert_eq!(items[0], ChainItem { node: 7, branch: 2 });
    assert_eq!(items[1], ChainItem { node: 8, branch: 2 });
}

#[test]
fn edits_out_of_range_are_refused_unapplied() {
    let mut items = vec![ChainItem { node: 7, branch: 0 }];
    let r = apply_edits(&mut items, &vec![(0, 1), (5, 1)], 2);
    assert_eq!(r, Err(Error::InvalidEdit { index: 5, branch: 1 }));
    assert_eq!(items[0], ChainItem { node: 7, branch: 0 });
    let r2 = apply_edits(&mut items, &vec![(0, 9)], 2);
    assert_eq!(r2, Err(Error::InvalidEdit { index: 0, branch: 9 }));
    assert_eq!(items[0].branch, 0);
}

#[test]
fn errors_describe_themselves() {
    assert!(!Error::NotClean.message().is_empty());
    assert!(!Error::EmptyBranchChain.message().is_empty());
    let e = Error::Store {
        op: git_backport::StoreOp::Merge,
        message: String::from("boom"),
    };
    assert!(e.message().contains("boom"));
}
