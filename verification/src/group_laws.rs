//! What is grouped together, told by what nodes carry and by the paths between them.

use vstd::prelude::*;

use crate::cluster::{edge_clusters, reach_relation, Colours};
use crate::cluster_laws::{
    law_clusters_maximal, law_clusters_partition_supported, law_clusters_uniform,
};
use crate::digraph::{acyclic, edges_of, in_degree, in_range, reaches};
use crate::merge::{above, below};
use crate::partition::{law_runs, runs};
use crate::quotient::in_cluster;

verus! {

/// Two nodes of one cluster can both run here, and agree in whether they work on 64-bit
/// floating-point tensors and in how they may be compiled.
pub proof fn law_cluster_members_agree(
    colours: Colours,
    adj: Seq<Seq<int>>,
    degree: Seq<int>,
    c: int,
    a: int,
    b: int,
)
    requires
        in_range(adj),
        colours.supported.len() == adj.len(),
        in_cluster(edge_clusters(colours, adj, degree), c, a),
        in_cluster(edge_clusters(colours, adj, degree), c, b),
    ensures
        colours.supported[a],
        colours.supported[b],
        colours.float64[a] == colours.float64[b],
        colours.class[a] == colours.class[b],
{
    law_clusters_uniform(colours, adj, degree, c, a, b);
}

/// In a graph without cycles whose incoming edges are counted, two clusters with an edge between
/// nodes that agree stay apart only where they must: some path leads from one of their nodes to
/// another of them through a node outside both.
pub proof fn law_clusters_apart_for_a_reason(
    colours: Colours,
    adj: Seq<Seq<int>>,
    degree: Seq<int>,
    c: int,
    d: int,
    a: int,
    b: int,
)
    requires
        in_range(adj),
        colours.supported.len() == adj.len(),
        acyclic(edges_of(adj)),
        forall|v: int| 0 <= v < adj.len() ==> #[trigger] degree[v] == in_degree(adj, v),
        in_cluster(edge_clusters(colours, adj, degree), c, a),
        in_cluster(edge_clusters(colours, adj, degree), d, b),
        c != d,
        edges_of(adj).contains((a, b)),
        colours.float64[a] == colours.float64[b],
        colours.class[a] == colours.class[b],
    ensures
        exists|x: int, w: int, y: int|
            {
                let clusters = edge_clusters(colours, adj, degree);
                &&& in_cluster(clusters, c, x) || in_cluster(clusters, d, x)
                &&& in_cluster(clusters, c, y) || in_cluster(clusters, d, y)
                &&& !in_cluster(clusters, c, w) && !in_cluster(clusters, d, w)
                &&& #[trigger] reaches(edges_of(adj), x, w)
                &&& #[trigger] reaches(edges_of(adj), w, y)
            },
{
    let clusters = edge_clusters(colours, adj, degree);
    law_clusters_partition_supported(colours, adj, degree);
    assert(colours.supported[a] && colours.supported[b]);
    law_clusters_maximal(colours, adj, degree, c, d, a, b);
    let reach = reach_relation(adj, degree);
    let both = clusters[c].to_set().union(clusters[d].to_set());
    let w = choose|w: int|
        #[trigger] below(reach, both, w) && above(reach, both, w) && !both.contains(w);
    let x = choose|x: int| #[trigger] both.contains(x) && reach.contains((x, w));
    let y = choose|y: int| #[trigger] both.contains(y) && reach.contains((w, y));
    assert(in_cluster(clusters, c, x) || in_cluster(clusters, d, x));
    assert(in_cluster(clusters, c, y) || in_cluster(clusters, d, y));
    assert(!in_cluster(clusters, c, w) && !in_cluster(clusters, d, w));
    assert(reaches(edges_of(adj), x, w));
    assert(reaches(edges_of(adj), w, y));
}

/// One run holds both positions.
pub open spec fn same_run(ranges: Seq<(int, int)>, a: int, b: int) -> bool {
    exists|i: int|
        0 <= i < ranges.len() && (#[trigger] ranges[i]).0 <= a < ranges[i].1 && ranges[i].0 <= b
            < ranges[i].1
}

/// Neighbours are in one run exactly if both can run here and agree in whether they work on 64-bit
/// floating-point tensors and in how they may be compiled.
pub proof fn law_runs_break_at_changes(colours: Colours, v: int)
    requires
        0 <= v < colours.supported.len() - 1,
    ensures
        same_run(runs(colours, 0), v, v + 1) <==> {
            &&& colours.supported[v]
            &&& colours.supported[v + 1]
            &&& colours.float64[v] == colours.float64[v + 1]
            &&& colours.class[v] == colours.class[v + 1]
        },
{
    let ranges = runs(colours, 0);
    law_runs(colours, 0);
    if same_run(ranges, v, v + 1) {
        let i = choose|i: int|
            0 <= i < ranges.len() && (#[trigger] ranges[i]).0 <= v < ranges[i].1 && ranges[i].0 <= v
                + 1 < ranges[i].1;
        assert(colours.supported[v] && colours.supported[v + 1]);
        assert(colours.alike(v, v + 1));
    } else if colours.supported[v] && colours.supported[v + 1] {
        let i = choose|i: int| 0 <= i < ranges.len() && (#[trigger] ranges[i]).0 <= v < ranges[i].1;
        assert(ranges[i].1 == v + 1);
        let first = ranges[i].0;
        assert(colours.supported[first] || !colours.supported[first]);
        assert(colours.alike(first, v));
        assert(!colours.alike(first, v + 1));
    }
}

} // verus!
