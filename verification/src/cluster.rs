//! Maximal convex clusters of supported nodes.

use vstd::prelude::*;

use crate::bitset::{bit_width, has_bit};
use crate::digraph::{
    acyclic, edges_of, in_degree, in_range, ints, lemma_distinct_exhaustive, reaches, rows,
};
use crate::grouping::{group_classes, groups, leaders, leads, lemma_select};
use crate::merge::{bits_relation, edges_within, merge_classes, merge_fix, pair_ints, square};
use crate::peel::predecessors_first;
use crate::quotient::{break_cycles, drop_cyclic_clusters, in_cluster, tidy};
use crate::reach::{lemma_rising_everywhere, ranks, reach_rows, reaches_rising};
use crate::registry::CompilePartitionClass;
use crate::visit::{lemma_visit_order, visit_nodes, visit_order};

verus! {

/// What may share a cluster: which nodes can run here, and the two colours they carry.
pub struct Colours {
    pub supported: Seq<bool>,
    pub float64: Seq<bool>,
    pub class: Seq<CompilePartitionClass>,
}

impl Colours {
    /// Both nodes can run here and carry the same colours.
    pub open spec fn alike(self, a: int, b: int) -> bool {
        self.supported[a] && self.supported[b] && self.float64[a] == self.float64[b]
            && self.class[a] == self.class[b]
    }
}

/// The edges of one row along which clusters may grow.
pub open spec fn row_candidates(colours: Colours, node: int, row: Seq<int>) -> Seq<(int, int)>
    decreases row.len(),
{
    if row.len() == 0 {
        Seq::empty()
    } else {
        let front = row_candidates(colours, node, row.drop_last());
        if colours.alike(node, row.last()) {
            front.push((node, row.last()))
        } else {
            front
        }
    }
}

/// The edges of the first `k` rows along which clusters may grow, in row order.
pub open spec fn candidates(colours: Colours, adj: Seq<Seq<int>>, k: int) -> Seq<(int, int)>
    decreases k,
{
    if k <= 0 {
        Seq::empty()
    } else {
        candidates(colours, adj, k - 1) + row_candidates(colours, k - 1, adj[k - 1])
    }
}

/// The graph has no cycle and `degree` counts its incoming edges.
pub open spec fn orderable(adj: Seq<Seq<int>>, degree: Seq<int>) -> bool {
    acyclic(edges_of(adj)) && forall|v: int|
        0 <= v < adj.len() ==> #[trigger] degree[v] == in_degree(adj, v)
}

/// Every node its own label or rank.
pub open spec fn identity(n: nat) -> Seq<int> {
    Seq::new(n, |v: int| v)
}

/// The order that reachability is collected along: that of a visit if it gets to every node, else
/// the node indices.
pub open spec fn walk_order(adj: Seq<Seq<int>>, degree: Seq<int>) -> Seq<int> {
    if visit_order(adj, degree).len() == adj.len() {
        visit_order(adj, degree)
    } else {
        identity(adj.len())
    }
}

/// The reachability that convexity is judged by. Where the graph has a cycle or a degree is not
/// exact, only walks count that rise through the order up to their last step.
pub open spec fn reach_relation(adj: Seq<Seq<int>>, degree: Seq<int>) -> Set<(int, int)> {
    Set::new(
        |e: (int, int)|
            0 <= e.0 < adj.len() && 0 <= e.1 < adj.len() && if orderable(adj, degree) {
                reaches(edges_of(adj), e.0, e.1)
            } else {
                reaches_rising(edges_of(adj), ranks(walk_order(adj, degree)), e.0, e.1)
            },
    )
}

/// The labels that greedy merging ends with.
pub open spec fn merged_labels(
    colours: Colours,
    adj: Seq<Seq<int>>,
    degree: Seq<int>,
) -> Seq<int> {
    merge_fix(
        reach_relation(adj, degree),
        identity(adj.len()),
        candidates(colours, adj, adj.len() as int),
    )
}

/// The clusters: merged classes of supported nodes, without those that block each other.
pub open spec fn edge_clusters(
    colours: Colours,
    adj: Seq<Seq<int>>,
    degree: Seq<int>,
) -> Seq<Seq<int>> {
    break_cycles(edges_of(adj), groups(colours.supported, merged_labels(colours, adj, degree)))
}

/// The lengths of the rows.
pub open spec fn lengths(lists: Seq<Vec<usize>>) -> Seq<int> {
    Seq::new(lists.len(), |v: int| lists[v]@.len() as int)
}

/// The grouped classes are nonempty and disjoint.
pub proof fn lemma_groups_tidy(supported: Seq<bool>, labels: Seq<int>)
    requires
        supported.len() == labels.len(),
    ensures
        tidy(groups(supported, labels), labels.len() as int),
        forall|c: int, v: int| #[trigger]
            in_cluster(groups(supported, labels), c, v) ==> 0 <= v < labels.len() && supported[v]
                && labels[v] == labels[leaders(supported, labels, labels.len() as int)[c]],
{
    let n = labels.len() as int;
    let all = groups(supported, labels);
    let lead = leaders(supported, labels, n);
    lemma_select(|v: int| leads(supported, labels, v), n);
    assert forall|c: int| 0 <= c < all.len() implies (#[trigger] all[c]).len() > 0 by {
        assert(lead.contains(lead[c]));
        lemma_select(|v: int| supported[v] && labels[v] == labels[lead[c]], n);
        assert(all[c].contains(lead[c]));
    }
    assert forall|c: int, v: int| #[trigger] in_cluster(all, c, v) implies 0 <= v < n
        && supported[v] && labels[v] == labels[lead[c]] by {
        lemma_select(|v: int| supported[v] && labels[v] == labels[lead[c]], n);
    }
    assert forall|c: int, d: int, v: int| #[trigger] in_cluster(all, c, v) && #[trigger] in_cluster(all, d, v) implies c
        == d by {
        assert(lead.contains(lead[c]) && lead.contains(lead[d]));
        if c < d {
            assert(supported[lead[c]]);
        } else if d < c {
            assert(supported[lead[d]]);
        }
    }
}

proof fn lemma_row_candidates_within(colours: Colours, node: int, row: Seq<int>, n: int)
    requires
        0 <= node < n,
        forall|j: int| 0 <= j < row.len() ==> 0 <= #[trigger] row[j] < n,
    ensures
        edges_within(row_candidates(colours, node, row), n),
    decreases row.len(),
{
    if row.len() > 0 {
        let front = row.drop_last();
        assert forall|j: int| 0 <= j < front.len() implies 0 <= #[trigger] front[j] < n by {
            assert(front[j] == row[j]);
        }
        lemma_row_candidates_within(colours, node, front, n);
        assert(0 <= row[row.len() - 1] < n);
    }
}

/// Candidate edges join nodes of the graph.
pub proof fn lemma_candidates_within(colours: Colours, adj: Seq<Seq<int>>, k: int)
    requires
        in_range(adj),
        0 <= k <= adj.len(),
    ensures
        edges_within(candidates(colours, adj, k), adj.len() as int),
    decreases k,
{
    if k > 0 {
        lemma_candidates_within(colours, adj, k - 1);
        let row = adj[k - 1];
        assert forall|j: int| 0 <= j < row.len() implies 0 <= #[trigger] row[j] < adj.len() by {
            assert(adj[k - 1][j] == row[j]);
        }
        lemma_row_candidates_within(colours, k - 1, row, adj.len() as int);
        let first = candidates(colours, adj, k - 1);
        let second = row_candidates(colours, k - 1, row);
        let both = candidates(colours, adj, k);
        assert forall|i: int| 0 <= i < both.len() implies 0 <= (#[trigger] both[i]).0 < adj.len()
            && 0 <= both[i].1 < adj.len() by {
            if i < first.len() {
                assert(both[i] == first[i]);
            } else {
                assert(both[i] == second[i - first.len()]);
            }
        }
    }
}

/// The order that reachability is collected along.
fn node_order(succ: &[Vec<usize>], pred: &[Vec<usize>]) -> (order: Vec<usize>)
    requires
        in_range(rows(succ@)),
        pred@.len() == succ@.len(),
        forall|v: int|
            0 <= v < succ@.len() ==> #[trigger] in_degree(rows(succ@), v) <= usize::MAX,
    ensures
        ints(order@) == walk_order(rows(succ@), lengths(pred@)),
{
    let n: usize = succ.len();
    let mut degree: Vec<usize> = Vec::new();
    while degree.len() < n
        invariant
            degree@.len() <= n,
            n == pred@.len(),
            forall|v: int| 0 <= v < degree@.len() ==> #[trigger] degree@[v] == pred@[v]@.len(),
        decreases n - degree@.len(),
    {
        let next: usize = degree.len();
        degree.push(pred[next].len());
    }
    proof {
        assert(ints(degree@) =~= lengths(pred@));
    }
    let order: Vec<usize> = visit_nodes(succ, &degree);
    assert(order@.len() == ints(order@).len());
    if order.len() == n {
        order
    } else {
        let mut plain: Vec<usize> = Vec::new();
        while plain.len() < n
            invariant
                plain@.len() <= n,
                forall|v: int| 0 <= v < plain@.len() ==> #[trigger] plain@[v] == v,
            decreases n - plain@.len(),
        {
            let next: usize = plain.len();
            plain.push(next);
        }
        proof {
            assert(ints(plain@) =~= identity(succ@.len()));
        }
        plain
    }
}

/// The order lists every node once; predecessors come first where that can be.
proof fn lemma_walk_order(adj: Seq<Seq<int>>, degree: Seq<int>)
    requires
        in_range(adj),
        degree.len() == adj.len(),
        forall|v: int| 0 <= v < adj.len() ==> 0 <= #[trigger] degree[v],
    ensures
        walk_order(adj, degree).len() == adj.len(),
        walk_order(adj, degree).no_duplicates(),
        forall|i: int|
            0 <= i < adj.len() ==> 0 <= #[trigger] walk_order(adj, degree)[i] < adj.len(),
        orderable(adj, degree) ==> predecessors_first(adj, walk_order(adj, degree)),
{
    lemma_visit_order(adj, degree);
}

/// The edges along which clusters may grow.
fn candidate_edges(
    supported: &[bool],
    float64: &[bool],
    compile_class: &[CompilePartitionClass],
    succ: &[Vec<usize>],
) -> (edges: Vec<(usize, usize)>)
    requires
        in_range(rows(succ@)),
        supported@.len() == succ@.len(),
        float64@.len() == succ@.len(),
        compile_class@.len() == succ@.len(),
    ensures
        pair_ints(edges@) == candidates(
            Colours { supported: supported@, float64: float64@, class: compile_class@ },
            rows(succ@),
            succ@.len() as int,
        ),
{
    let n: usize = succ.len();
    let ghost colours = Colours {
        supported: supported@,
        float64: float64@,
        class: compile_class@,
    };
    let ghost adj = rows(succ@);
    let mut edges: Vec<(usize, usize)> = Vec::new();
    let mut node: usize = 0;
    proof {
        assert(pair_ints(edges@) =~= candidates(colours, adj, 0));
    }
    while node < n
        invariant
            node <= n,
            n == succ@.len(),
            n == supported@.len(),
            n == float64@.len(),
            n == compile_class@.len(),
            adj == rows(succ@),
            in_range(adj),
            colours == (Colours { supported: supported@, float64: float64@, class: compile_class@ }),
            pair_ints(edges@) == candidates(colours, adj, node as int),
        decreases n - node,
    {
        let mut edge: usize = 0;
        let ghost row = adj[node as int];
        let ghost before = pair_ints(edges@);
        proof {
            assert(row.take(0) =~= Seq::<int>::empty());
            assert(before + row_candidates(colours, node as int, row.take(0)) =~= before);
        }
        while edge < succ[node].len()
            invariant
                node < n,
                edge <= row.len(),
                row == adj[node as int],
                row.len() == succ@[node as int]@.len(),
                n == succ@.len(),
                n == supported@.len(),
                n == float64@.len(),
                n == compile_class@.len(),
                adj == rows(succ@),
                in_range(adj),
                colours == (Colours {
                    supported: supported@,
                    float64: float64@,
                    class: compile_class@,
                }),
                pair_ints(edges@) == before + row_candidates(
                    colours,
                    node as int,
                    row.take(edge as int),
                ),
            decreases row.len() - edge,
        {
            let successor: usize = succ[node][edge];
            let ghost held = edges@;
            assert(adj[node as int][edge as int] == successor);
            if supported[node] && supported[successor] && float64[node] == float64[successor]
                && compile_class[node] == compile_class[successor] {
                edges.push((node, successor));
            }
            proof {
                let taken = row.take(edge as int);
                let longer = row.take(edge + 1);
                assert(longer.drop_last() =~= taken);
                assert(longer.last() == successor);
                if colours.alike(node as int, successor as int) {
                    assert(pair_ints(edges@) =~= pair_ints(held).push(
                        (node as int, successor as int),
                    ));
                    assert(pair_ints(edges@) =~= before + row_candidates(
                        colours,
                        node as int,
                        longer,
                    ));
                }
            }
            edge = edge + 1;
        }
        proof {
            assert(row.take(edge as int) =~= row);
        }
        node = node + 1;
    }
    edges
}

/// Groups supported nodes into connected clusters that are uniform in both colours and convex in
/// the graph given by `succ`, growing each as far as convexity allows. Nodes whose cluster would
/// wait for itself through other clusters are left out.
pub fn cluster_edges(
    supported: &[bool],
    float64: &[bool],
    compile_class: &[CompilePartitionClass],
    succ: &[Vec<usize>],
    pred: &[Vec<usize>],
) -> (clusters: Vec<Vec<usize>>)
    requires
        supported@.len() == succ@.len(),
        float64@.len() == succ@.len(),
        compile_class@.len() == succ@.len(),
        pred@.len() == succ@.len(),
        in_range(rows(succ@)),
        forall|v: int|
            0 <= v < succ@.len() ==> #[trigger] in_degree(rows(succ@), v) <= usize::MAX,
    ensures
        rows(clusters@) == edge_clusters(
            Colours { supported: supported@, float64: float64@, class: compile_class@ },
            rows(succ@),
            lengths(pred@),
        ),
{
    let ghost adj = rows(succ@);
    let ghost degree = lengths(pred@);
    let ghost n = succ@.len() as int;
    let order: Vec<usize> = node_order(succ, pred);
    proof {
        lemma_walk_order(adj, degree);
        assert forall|i: int| 0 <= i < order@.len() implies #[trigger] order@[i] < succ@.len() by {
            assert(walk_order(adj, degree)[i] == order@[i]);
        }
    }
    let reach: Vec<Vec<u64>> = reach_rows(succ, &order);
    let edges: Vec<(usize, usize)> = candidate_edges(supported, float64, compile_class, succ);
    proof {
        lemma_reach_square(adj, ints(order@), reach@);
        lemma_reach_relation(adj, degree, reach@);
        lemma_candidates_within(
            Colours { supported: supported@, float64: float64@, class: compile_class@ },
            adj,
            n,
        );
    }
    let mut classes = merge_classes(&reach, &edges);
    let clusters: Vec<Vec<usize>> = group_classes(supported, &mut classes);
    proof {
        assert(identity(adj.len()) =~= Seq::new(reach@.len(), |v: int| v));
        lemma_groups_tidy(supported@, classes@);
    }
    drop_cyclic_clusters(succ, clusters)
}

proof fn lemma_reach_square(adj: Seq<Seq<int>>, order: Seq<int>, reach: Seq<Vec<u64>>)
    requires
        in_range(adj),
        reach.len() == adj.len(),
        forall|a: int|
            0 <= a < adj.len() ==> (#[trigger] reach[a])@.len() == crate::bitset::word_count(
                adj.len() as int,
            ),
        forall|a: int, b: int|
            0 <= a < adj.len() && 0 <= b < bit_width(adj.len() as int) ==> (#[trigger] has_bit(
                reach[a]@,
                b,
            ) <==> reaches_rising(edges_of(adj), ranks(order), a, b)),
    ensures
        square(reach),
{
    assert forall|a: int, b: int|
        0 <= a < reach.len() && 0 <= b < bit_width(reach.len() as int) && #[trigger] has_bit(
            reach[a]@,
            b,
        ) implies b < reach.len() by {
        let edges = edges_of(adj);
        let path = choose|path: Seq<int>| #[trigger]
            crate::digraph::is_walk(edges, path) && path.len() >= 2 && path[0] == a && path.last()
                == b && crate::reach::rising(ranks(order), path);
        let i = path.len() - 2;
        assert(edges.contains(crate::digraph::hop(path, i)));
        let u = path[i];
        let j = choose|j: int| 0 <= j < adj[u].len() && adj[u][j] == b;
        assert(adj[u][j] == b);
    }
}

proof fn lemma_reach_relation(
    adj: Seq<Seq<int>>,
    degree: Seq<int>,
    reach: Seq<Vec<u64>>,
)
    requires
        in_range(adj),
        reach.len() == adj.len(),
        degree.len() == adj.len(),
        forall|v: int| 0 <= v < adj.len() ==> 0 <= #[trigger] degree[v],
        forall|a: int, b: int|
            0 <= a < adj.len() && 0 <= b < bit_width(adj.len() as int) ==> (#[trigger] has_bit(
                reach[a]@,
                b,
            ) <==> reaches_rising(edges_of(adj), ranks(walk_order(adj, degree)), a, b)),
    ensures
        bits_relation(reach) == reach_relation(adj, degree),
{
    let n = adj.len() as int;
    let order = walk_order(adj, degree);
    lemma_walk_order(adj, degree);
    assert forall|e: (int, int)| bits_relation(reach).contains(e) <==> reach_relation(
        adj,
        degree,
    ).contains(e) by {
        if 0 <= e.0 < n && 0 <= e.1 < n {
            assert(has_bit(reach[e.0]@, e.1) <==> reaches_rising(
                edges_of(adj),
                ranks(order),
                e.0,
                e.1,
            ));
            if orderable(adj, degree) {
                assert forall|v: int| 0 <= v < adj.len() implies #[trigger] order.contains(v) by {
                    lemma_distinct_exhaustive(order, n, v);
                }
                lemma_rising_everywhere(adj, order, e.0, e.1);
            }
        }
    }
    assert(bits_relation(reach) =~= reach_relation(adj, degree));
}

} // verus!
