//! On a chain, clusters that grow along edges are the runs of neighbours.

use vstd::prelude::*;

use crate::claim_laws::lemma_forward_acyclic;
use crate::cluster::{
    candidates, edge_clusters, lemma_candidates_within, lemma_groups_tidy, merged_labels,
    orderable, reach_relation, Colours,
};
use crate::cluster_laws::{
    lemma_candidate_listed, lemma_group_is_class, lemma_groups_ascending,
    lemma_groups_cover, lemma_merged_sound, lemma_stable_pass, sound,
};
use crate::digraph::{
    acyclic, all_marked, count_into, edges_of, in_degree, in_range, lemma_edge_reaches,
    lemma_reaches_transitive, occurrences, reaches,
};
use crate::grouping::groups;
use crate::ir::IrState;
use crate::merge::{above, below, class_of, convex};
use crate::partition::{
    cluster_nodes, convex_clusters, law_runs, lemma_forward, lemma_run_alike, row_lengths,
    run_nodes, runs,
};
use crate::quotient::{home, in_cluster, is_victim, lemma_home, quotient};
use crate::topology::{backward_rows, forward_rows, lemma_ascending_unique};
use crate::union_find::relabel;

verus! {

/// The successors in a chain: every node leads to the next.
pub open spec fn chain_rows(n: nat) -> Seq<Seq<int>> {
    Seq::new(
        n,
        |v: int|
            if v + 1 < n {
                seq![v + 1]
            } else {
                Seq::empty()
            },
    )
}

/// How many predecessors each node of a chain has.
pub open spec fn chain_degrees(n: nat) -> Seq<int> {
    Seq::new(
        n,
        |v: int|
            if v == 0 {
                0int
            } else {
                1int
            },
    )
}

/// The positions from `lo` up to `hi`.
pub open spec fn stretch(lo: int, hi: int) -> Seq<int> {
    Seq::new((hi - lo) as nat, |k: int| lo + k)
}

/// The positions of each run.
pub open spec fn run_positions(ranges: Seq<(int, int)>) -> Seq<Seq<int>> {
    Seq::new(ranges.len(), |i: int| stretch(ranges[i].0, ranges[i].1))
}

proof fn lemma_chain_edges(n: nat)
    ensures
        in_range(chain_rows(n)),
        forall|a: int, b: int| #[trigger]
            edges_of(chain_rows(n)).contains((a, b)) <==> 0 <= a && b == a + 1 && b < n,
{
    let adj = chain_rows(n);
    assert forall|a: int, b: int| #[trigger] edges_of(adj).contains((a, b)) <==> 0 <= a && b == a
        + 1 && b < n by {
        if 0 <= a && a + 1 < n {
            assert(adj[a][0] == a + 1);
        }
    }
}

proof fn lemma_chain_reaches(n: nat, a: int, b: int)
    requires
        0 <= a < b < n,
    ensures
        reaches(edges_of(chain_rows(n)), a, b),
    decreases b - a,
{
    let edges = edges_of(chain_rows(n));
    lemma_chain_edges(n);
    assert(edges.contains((b - 1, b)));
    lemma_edge_reaches(edges, b - 1, b);
    if a < b - 1 {
        lemma_chain_reaches(n, a, b - 1);
        lemma_reaches_transitive(edges, a, b - 1, b);
    }
}

proof fn lemma_chain_count(n: nat, v: int, k: int)
    requires
        0 <= v < n,
        0 <= k <= n,
    ensures
        count_into(chain_rows(n), all_marked(n), v, k) == (if 1 <= v <= k {
            1nat
        } else {
            0nat
        }),
    decreases k,
{
    if k > 0 {
        lemma_chain_count(n, v, k - 1);
        let row = chain_rows(n)[k - 1];
        if k < n {
            assert(row.drop_last() =~= Seq::<int>::empty());
            assert(occurrences(row.drop_last(), v) == 0);
        }
    }
}

/// A chain can be ordered, and its nodes reach exactly those behind them.
proof fn lemma_chain(n: nat)
    ensures
        in_range(chain_rows(n)),
        orderable(chain_rows(n), chain_degrees(n)),
        forall|a: int, b: int| #[trigger]
            reach_relation(chain_rows(n), chain_degrees(n)).contains((a, b)) <==> 0 <= a < b < n,
{
    let adj = chain_rows(n);
    let edges = edges_of(adj);
    lemma_chain_edges(n);
    lemma_forward_acyclic(edges);
    assert forall|v: int| 0 <= v < adj.len() implies #[trigger] chain_degrees(n)[v] == in_degree(
        adj,
        v,
    ) by {
        lemma_chain_count(n, v, n as int);
    }
    assert forall|a: int, b: int| #[trigger]
        reach_relation(adj, chain_degrees(n)).contains((a, b)) <==> 0 <= a < b < n by {
        if 0 <= a < b < n {
            lemma_chain_reaches(n, a, b);
        } else if 0 <= a < n && 0 <= b < n && reaches(edges, a, b) {
            lemma_forward(edges, a, b);
        }
    }
}

/// Equal labels on a chain leave no gap.
proof fn lemma_no_gap(colours: Colours, n: nat, labels: Seq<int>, a: int, w: int, b: int)
    requires
        sound(colours, chain_rows(n), chain_degrees(n), labels),
        0 <= a <= w <= b < n,
        labels[a] == labels[b],
    ensures
        labels[w] == labels[a],
{
    lemma_chain(n);
    let reach = reach_relation(chain_rows(n), chain_degrees(n));
    let group = class_of(labels, labels[a]);
    assert(convex(reach, group));
    if a < w && w < b {
        assert(group.contains(a) && reach.contains((a, w)));
        assert(group.contains(b) && reach.contains((w, b)));
        assert(below(reach, group, w) && above(reach, group, w));
        assert(group.contains(w));
    }
}

/// Two neighbouring classes of a chain make a convex set.
proof fn lemma_neighbours_convex(colours: Colours, n: nat, labels: Seq<int>, v: int)
    requires
        sound(colours, chain_rows(n), chain_degrees(n), labels),
        0 <= v,
        v + 1 < n,
        labels[v] != labels[v + 1],
    ensures
        convex(
            reach_relation(chain_rows(n), chain_degrees(n)),
            class_of(labels, labels[v]).union(class_of(labels, labels[v + 1])),
        ),
{
    lemma_chain(n);
    let reach = reach_relation(chain_rows(n), chain_degrees(n));
    let left = class_of(labels, labels[v]);
    let right = class_of(labels, labels[v + 1]);
    let both = left.union(right);
    assert forall|w: int| #[trigger] below(reach, both, w) && above(reach, both, w) implies both.contains(
        w,
    ) by {
        let a = choose|a: int| #[trigger] both.contains(a) && reach.contains((a, w));
        let b = choose|b: int| #[trigger] both.contains(b) && reach.contains((w, b));
        assert(0 <= a < w < b < n);
        if labels[a] == labels[b] {
            lemma_no_gap(colours, n, labels, a, w, b);
        } else if labels[a] == labels[v] {
            if w <= v {
                lemma_no_gap(colours, n, labels, a, w, v);
            } else {
                assert(labels[b] == labels[v + 1]);
                lemma_no_gap(colours, n, labels, v + 1, w, b);
            }
        } else {
            assert(labels[a] == labels[v + 1] && labels[b] == labels[v]);
            if b <= v {
                lemma_no_gap(colours, n, labels, a, b, v + 1);
            } else {
                lemma_no_gap(colours, n, labels, v, v + 1, b);
            }
            assert(false);
        }
    }
}

/// Alike neighbours of a chain end in one class.
proof fn lemma_neighbours_merge(colours: Colours, n: nat, v: int)
    requires
        colours.supported.len() == n,
        0 <= v,
        v + 1 < n,
        colours.alike(v, v + 1),
    ensures
        ({
            let labels = merged_labels(colours, chain_rows(n), chain_degrees(n));
            labels[v] == labels[v + 1]
        }),
{
    let adj = chain_rows(n);
    let degree = chain_degrees(n);
    let labels = merged_labels(colours, adj, degree);
    let edges = candidates(colours, adj, n as int);
    let reach = reach_relation(adj, degree);
    lemma_chain(n);
    lemma_chain_edges(n);
    lemma_merged_sound(colours, adj, degree);
    lemma_candidates_within(colours, adj, n as int);
    assert(edges_of(adj).contains((v, v + 1)));
    lemma_candidate_listed(colours, adj, n as int, (v, v + 1));
    let i = choose|i: int| 0 <= i < edges.len() && edges[i] == (v, v + 1);
    lemma_stable_pass(reach, labels, edges, i);
    if labels[v] != labels[v + 1] {
        lemma_neighbours_convex(colours, n, labels, v);
        assert(relabel(labels, labels[v], labels[v + 1])[v + 1] == labels[v]);
    }
}

/// The nodes of a run end in one class.
proof fn lemma_run_merges(colours: Colours, n: nat, i: int, a: int, b: int)
    requires
        colours.supported.len() == n,
        0 <= i < runs(colours, 0).len(),
        runs(colours, 0)[i].0 <= a <= b < runs(colours, 0)[i].1,
    ensures
        ({
            let labels = merged_labels(colours, chain_rows(n), chain_degrees(n));
            labels[a] == labels[b]
        }),
    decreases b - a,
{
    law_runs(colours, 0);
    if a < b {
        lemma_run_merges(colours, n, i, a, b - 1);
        lemma_run_alike(colours, i, b - 1, b);
        lemma_neighbours_merge(colours, n, b - 1);
    }
}

/// A class of a chain does not go beyond the run of one of its nodes.
proof fn lemma_class_in_run(colours: Colours, n: nat, i: int, a: int, v: int)
    requires
        colours.supported.len() == n,
        0 <= i < runs(colours, 0).len(),
        runs(colours, 0)[i].0 <= a < runs(colours, 0)[i].1,
        0 <= v < n,
        ({
            let labels = merged_labels(colours, chain_rows(n), chain_degrees(n));
            labels[v] == labels[a]
        }),
    ensures
        runs(colours, 0)[i].0 <= v < runs(colours, 0)[i].1,
{
    let labels = merged_labels(colours, chain_rows(n), chain_degrees(n));
    let lo = runs(colours, 0)[i].0;
    let hi = runs(colours, 0)[i].1;
    law_runs(colours, 0);
    lemma_chain(n);
    lemma_merged_sound(colours, chain_rows(n), chain_degrees(n));
    if v >= hi {
        lemma_no_gap(colours, n, labels, a, hi, v);
        assert(labels[a] == labels[hi]);
        assert(colours.alike(a, hi));
        lemma_run_alike(colours, i, lo, a);
        assert(colours.alike(lo, hi));
    } else if v < lo {
        lemma_no_gap(colours, n, labels, v, lo - 1, a);
        assert(labels[a] == labels[lo - 1]);
        assert(colours.alike(lo - 1, a));
        assert(colours.supported[lo - 1]);
        let j = choose|j: int|
            0 <= j < runs(colours, 0).len() && (#[trigger] runs(colours, 0)[j]).0 <= lo - 1
                < runs(colours, 0)[j].1;
        let first = runs(colours, 0)[j].0;
        if i < j {
            assert(runs(colours, 0)[i].1 <= runs(colours, 0)[j].0);
        } else {
            assert(runs(colours, 0)[j].1 <= runs(colours, 0)[i].0);
        }
        assert(runs(colours, 0)[j].1 == lo);
        lemma_run_alike(colours, j, first, lo - 1);
        lemma_run_alike(colours, i, lo, a);
        assert(colours.alike(first, lo));
    }
}

/// The run that holds a supported position.
proof fn lemma_run_of(colours: Colours, v: int) -> (i: int)
    requires
        0 <= v < colours.supported.len(),
        colours.supported[v],
    ensures
        0 <= i < runs(colours, 0).len(),
        runs(colours, 0)[i].0 <= v < runs(colours, 0)[i].1,
{
    law_runs(colours, 0);
    choose|i: int|
        0 <= i < runs(colours, 0).len() && (#[trigger] runs(colours, 0)[i]).0 <= v < runs(
            colours,
            0,
        )[i].1
}

/// The group that holds a node of run `i` is that run.
proof fn lemma_group_is_run(colours: Colours, n: nat, c: int, i: int, v: int)
    requires
        colours.supported.len() == n,
        0 <= i < runs(colours, 0).len(),
        runs(colours, 0)[i].0 <= v < runs(colours, 0)[i].1,
        in_cluster(
            groups(
                colours.supported,
                merged_labels(colours, chain_rows(n), chain_degrees(n)),
            ),
            c,
            v,
        ),
    ensures
        groups(colours.supported, merged_labels(colours, chain_rows(n), chain_degrees(n)))[c]
            == run_positions(runs(colours, 0))[i],
{
    let labels = merged_labels(colours, chain_rows(n), chain_degrees(n));
    let all = groups(colours.supported, labels);
    let group = all[c];
    let lo = runs(colours, 0)[i].0;
    let hi = runs(colours, 0)[i].1;
    let run = stretch(lo, hi);
    lemma_chain(n);
    lemma_merged_sound(colours, chain_rows(n), chain_degrees(n));
    law_runs(colours, 0);
    assert forall|a: int, b: int|
        0 <= a < labels.len() && 0 <= b < labels.len() && a != b && #[trigger] labels[a]
            == #[trigger] labels[b] implies colours.supported[a] && colours.supported[b] by {
        assert(colours.alike(a, b));
    }
    lemma_group_is_class(colours.supported, labels, c);
    lemma_groups_ascending(colours.supported, labels);
    assert(group.to_set().contains(v));
    assert(labels[v] == labels[group[0]]);
    assert forall|u: int| #[trigger] group.contains(u) <==> run.contains(u) by {
        assert(group.contains(u) <==> group.to_set().contains(u));
        if group.contains(u) {
            assert(labels[u] == labels[v]);
            lemma_class_in_run(colours, n, i, v, u);
            assert(run[u - lo] == u);
        }
        if run.contains(u) {
            let k = choose|k: int| 0 <= k < run.len() && run[k] == u;
            assert(lo <= u < hi);
            if u <= v {
                lemma_run_merges(colours, n, i, u, v);
            } else {
                lemma_run_merges(colours, n, i, v, u);
            }
            assert(class_of(labels, labels[group[0]]).contains(u));
        }
    }
    assert forall|x: int, y: int| 0 <= x < y < group.len() implies #[trigger] group[x]
        < #[trigger] group[y] by {
        assert(all[c][x] < all[c][y]);
    }
    lemma_ascending_unique(group, run);
}

/// Lists of sequences that ascend by their first members are equal if they hold the same ones.
proof fn lemma_lists_equal(left: Seq<Seq<int>>, right: Seq<Seq<int>>)
    requires
        forall|c: int, d: int|
            0 <= c < d < left.len() ==> (#[trigger] left[c])[0] < (#[trigger] left[d])[0],
        forall|c: int, d: int|
            0 <= c < d < right.len() ==> (#[trigger] right[c])[0] < (#[trigger] right[d])[0],
        forall|c: int| 0 <= c < left.len() ==> right.contains(#[trigger] left[c]),
        forall|c: int| 0 <= c < right.len() ==> left.contains(#[trigger] right[c]),
    ensures
        left == right,
{
    let a = Seq::new(left.len(), |c: int| left[c][0]);
    let b = Seq::new(right.len(), |c: int| right[c][0]);
    assert forall|v: int| #[trigger] a.contains(v) <==> b.contains(v) by {
        if a.contains(v) {
            let c = choose|c: int| 0 <= c < a.len() && a[c] == v;
            assert(right.contains(left[c]));
            let d = choose|d: int| 0 <= d < right.len() && right[d] == left[c];
            assert(b[d] == v);
        }
        if b.contains(v) {
            let c = choose|c: int| 0 <= c < b.len() && b[c] == v;
            assert(left.contains(right[c]));
            let d = choose|d: int| 0 <= d < left.len() && left[d] == right[c];
            assert(a[d] == v);
        }
    }
    assert forall|i: int, j: int| 0 <= i < j < a.len() implies #[trigger] a[i] < #[trigger] a[j] by {
        assert(left[i][0] < left[j][0]);
    }
    assert forall|i: int, j: int| 0 <= i < j < b.len() implies #[trigger] b[i] < #[trigger] b[j] by {
        assert(right[i][0] < right[j][0]);
    }
    lemma_ascending_unique(a, b);
    assert(left.len() == a.len() && right.len() == b.len());
    assert forall|c: int| 0 <= c < left.len() implies #[trigger] left[c] == right[c] by {
        assert(a[c] == b[c]);
        assert(right.contains(left[c]));
        let d = choose|d: int| 0 <= d < right.len() && right[d] == left[c];
        assert(b[d] == a[c]);
        if d < c {
            assert(right[d][0] < right[c][0]);
        } else if c < d {
            assert(right[c][0] < right[d][0]);
        }
    }
    assert(left =~= right);
}

/// The merged groups of a chain are its runs.
proof fn lemma_groups_are_runs(colours: Colours, n: nat)
    requires
        colours.supported.len() == n,
    ensures
        groups(colours.supported, merged_labels(colours, chain_rows(n), chain_degrees(n)))
            == run_positions(runs(colours, 0)),
{
    let labels = merged_labels(colours, chain_rows(n), chain_degrees(n));
    let all = groups(colours.supported, labels);
    let ranges = runs(colours, 0);
    let positions = run_positions(ranges);
    lemma_chain(n);
    lemma_merged_sound(colours, chain_rows(n), chain_degrees(n));
    lemma_groups_tidy(colours.supported, labels);
    lemma_groups_ascending(colours.supported, labels);
    law_runs(colours, 0);
    assert forall|c: int| 0 <= c < all.len() implies positions.contains(#[trigger] all[c]) by {
        let v = all[c][0];
        assert(all[c].contains(v));
        assert(in_cluster(all, c, v));
        let i = lemma_run_of(colours, v);
        lemma_group_is_run(colours, n, c, i, v);
        assert(positions[i] == all[c]);
    }
    assert forall|i: int| 0 <= i < positions.len() implies all.contains(#[trigger] positions[i]) by {
        let v = ranges[i].0;
        assert(0 <= v < ranges[i].1 <= n);
        lemma_run_alike(colours, i, v, v);
        lemma_groups_cover(colours.supported, labels, v, v);
        let c = choose|c: int| in_cluster(all, c, v);
        lemma_group_is_run(colours, n, c, i, v);
        assert(all[c] == positions[i]);
    }
    assert forall|c: int, d: int| 0 <= c < d < positions.len() implies (#[trigger] positions[c])[0]
        < (#[trigger] positions[d])[0] by {
        assert(ranges[c].1 <= ranges[d].0);
        assert(ranges[c].0 < ranges[c].1);
        assert(ranges[d].0 < ranges[d].1);
        assert(positions[c][0] == ranges[c].0 && positions[d][0] == ranges[d].0);
    }
    lemma_lists_equal(all, positions);
}

/// Contracting the runs of a chain leaves a chain.
proof fn lemma_contracted_runs(colours: Colours, n: nat)
    requires
        colours.supported.len() == n,
    ensures
        acyclic(
            quotient(
                edges_of(chain_rows(n)),
                groups(
                    colours.supported,
                    merged_labels(colours, chain_rows(n), chain_degrees(n)),
                ),
            ),
        ),
{
    let labels = merged_labels(colours, chain_rows(n), chain_degrees(n));
    let all = groups(colours.supported, labels);
    let ranges = runs(colours, 0);
    let edges = edges_of(chain_rows(n));
    let contracted = quotient(edges, all);
    lemma_chain(n);
    lemma_merged_sound(colours, chain_rows(n), chain_degrees(n));
    lemma_chain_edges(n);
    lemma_groups_tidy(colours.supported, labels);
    lemma_groups_are_runs(colours, n);
    law_runs(colours, 0);
    assert forall|u: int, v: int| #[trigger] contracted.contains((u, v)) implies u < v by {
        let (a, b) = choose|a: int, b: int| #[trigger]
            edges.contains((a, b)) && home(all, a) == u && home(all, b) == v;
        assert(b == a + 1);
        let first = lemma_home_before(colours, n, a);
        let next = lemma_home_before(colours, n, b);
        if next <= a {
            assert(exists|c: int| in_cluster(all, c, b));
            let c = choose|c: int| in_cluster(all, c, b);
            lemma_home(all, n as int, c, b);
            let range = ranges[c];
            assert(all[c] == stretch(range.0, range.1));
            let k = choose|k: int| 0 <= k < all[c].len() && all[c][k] == b;
            assert(all[c][0] == range.0);
            assert(all[c][a - range.0] == a);
            assert(in_cluster(all, c, a));
            lemma_home(all, n as int, c, a);
        }
    }
    lemma_forward_acyclic(contracted);
}

/// A node's run starts at or before it.
proof fn lemma_home_before(colours: Colours, n: nat, v: int) -> (h: int)
    requires
        colours.supported.len() == n,
        0 <= v < n,
    ensures
        h == home(
            groups(
                colours.supported,
                merged_labels(colours, chain_rows(n), chain_degrees(n)),
            ),
            v,
        ),
        h <= v,
{
    let labels = merged_labels(colours, chain_rows(n), chain_degrees(n));
    let all = groups(colours.supported, labels);
    lemma_chain(n);
    lemma_merged_sound(colours, chain_rows(n), chain_degrees(n));
    lemma_groups_tidy(colours.supported, labels);
    lemma_groups_ascending(colours.supported, labels);
    if exists|c: int| in_cluster(all, c, v) {
        let c = choose|c: int| in_cluster(all, c, v);
        lemma_home(all, n as int, c, v);
        let k = choose|k: int| 0 <= k < all[c].len() && all[c][k] == v;
        if k > 0 {
            assert(all[c][0] < all[c][k]);
        }
    }
    home(all, v)
}

/// On a chain, growing clusters along edges gives the runs of alike neighbours: the same groups,
/// in the same order. Every supported node is in exactly one of them.
pub proof fn law_chain_clusters(colours: Colours, n: nat)
    requires
        colours.supported.len() == n,
    ensures
        edge_clusters(colours, chain_rows(n), chain_degrees(n)) == run_positions(runs(colours, 0)),
        forall|order: Seq<u32>|
            order.len() == n ==> cluster_nodes(
                order,
                edge_clusters(colours, chain_rows(n), chain_degrees(n)),
            ) == #[trigger] run_nodes(order, runs(colours, 0)),
        forall|v: int|
            0 <= v < n && #[trigger] colours.supported[v] ==> exists|c: int|
                in_cluster(edge_clusters(colours, chain_rows(n), chain_degrees(n)), c, v),
        forall|v: int, c: int, d: int|
            #![trigger
                in_cluster(edge_clusters(colours, chain_rows(n), chain_degrees(n)), c, v),
                in_cluster(edge_clusters(colours, chain_rows(n), chain_degrees(n)), d, v)]
            in_cluster(edge_clusters(colours, chain_rows(n), chain_degrees(n)), c, v)
                && in_cluster(edge_clusters(colours, chain_rows(n), chain_degrees(n)), d, v)
                ==> c == d,
{
    let labels = merged_labels(colours, chain_rows(n), chain_degrees(n));
    let all = groups(colours.supported, labels);
    let clusters = edge_clusters(colours, chain_rows(n), chain_degrees(n));
    let ranges = runs(colours, 0);
    lemma_chain(n);
    lemma_merged_sound(colours, chain_rows(n), chain_degrees(n));
    lemma_groups_tidy(colours.supported, labels);
    lemma_groups_are_runs(colours, n);
    lemma_contracted_runs(colours, n);
    law_runs(colours, 0);
    assert forall|c: int| !is_victim(edges_of(chain_rows(n)), all, c) by {}
    assert(clusters == all);
    assert forall|order: Seq<u32>| order.len() == n implies cluster_nodes(order, clusters)
        == #[trigger] run_nodes(order, ranges) by {
        let grown = cluster_nodes(order, clusters);
        let found = run_nodes(order, ranges);
        assert forall|i: int| 0 <= i < ranges.len() implies #[trigger] grown[i] == found[i] by {
            assert(0 <= ranges[i].0 < ranges[i].1 <= n);
            assert(clusters[i] == stretch(ranges[i].0, ranges[i].1));
            assert(grown[i] =~= found[i]);
        }
        assert(grown =~= found);
    }
    assert forall|v: int| 0 <= v < n && #[trigger] colours.supported[v] implies exists|c: int|
        in_cluster(clusters, c, v) by {
        lemma_groups_cover(colours.supported, labels, v, v);
    }
}

/// On a graph whose nodes form a chain, both ways to build clusters agree.
pub proof fn law_chain_graph_clusters(state: IrState, order: Seq<u32>, colours: Colours)
    requires
        colours.supported.len() == order.len(),
        forward_rows(state, order) == chain_rows(order.len()),
        row_lengths(backward_rows(state, order)) == chain_degrees(order.len()),
    ensures
        convex_clusters(state, order, colours) == run_nodes(order, runs(colours, 0)),
{
    law_chain_clusters(colours, order.len());
}

} // verus!
