//! The graph of clusters, and the removal of clusters that depend on each other in a circle.

use vstd::prelude::*;

use crate::bitset::{bit_empty, bit_set, bit_test, bit_width, has_bit, word_count};
use crate::digraph::{
    all_marked, behind_cycle, edges_of, in_degree, in_range, ints, lemma_count_distinct,
    lemma_count_empty, lemma_count_push, rows,
};
use crate::peel::{lemma_listed_not_behind_cycle, lemma_unpeeled_behind_cycle, peel};

verus! {

/// `v` is a member of cluster `c`.
pub open spec fn in_cluster(clusters: Seq<Seq<int>>, c: int, v: int) -> bool {
    0 <= c < clusters.len() && clusters[c].contains(v)
}

/// Nonempty clusters of nodes below `n` that share no node.
pub open spec fn tidy(clusters: Seq<Seq<int>>, n: int) -> bool {
    &&& forall|c: int| 0 <= c < clusters.len() ==> (#[trigger] clusters[c]).len() > 0
    &&& forall|c: int, v: int| #[trigger] in_cluster(clusters, c, v) ==> 0 <= v < n
    &&& forall|c: int, d: int, v: int| #[trigger]
        in_cluster(clusters, c, v) && #[trigger] in_cluster(clusters, d, v) ==> c == d
}

/// The node that stands for `v` once clusters are contracted: the first of its cluster, or itself.
pub open spec fn home(clusters: Seq<Seq<int>>, v: int) -> int {
    if exists|c: int| in_cluster(clusters, c, v) {
        clusters[choose|c: int| in_cluster(clusters, c, v)][0]
    } else {
        v
    }
}

/// The edges between contracted clusters and unclustered nodes.
pub open spec fn quotient(edges: Set<(int, int)>, clusters: Seq<Seq<int>>) -> Set<(int, int)> {
    Set::new(
        |e: (int, int)|
            e.0 != e.1 && exists|a: int, b: int| #[trigger]
                edges.contains((a, b)) && home(clusters, a) == e.0 && home(clusters, b) == e.1,
    )
}

/// Cluster `c` waits, directly or not, for a cycle of the contracted graph.
pub open spec fn blocked(edges: Set<(int, int)>, clusters: Seq<Seq<int>>, c: int) -> bool {
    behind_cycle(quotient(edges, clusters), clusters[c][0])
}

/// The first among the smallest blocked clusters.
pub open spec fn is_victim(edges: Set<(int, int)>, clusters: Seq<Seq<int>>, c: int) -> bool {
    &&& 0 <= c < clusters.len()
    &&& blocked(edges, clusters, c)
    &&& forall|d: int|
        0 <= d < clusters.len() && #[trigger] blocked(edges, clusters, d) ==> clusters[c].len()
            < clusters[d].len() || (clusters[c].len() == clusters[d].len() && c <= d)
}

/// Gives up blocked clusters, smallest first, until none is blocked.
pub open spec fn break_cycles(
    edges: Set<(int, int)>,
    clusters: Seq<Seq<int>>,
) -> Seq<Seq<int>>
    decreases clusters.len(),
{
    if exists|c: int| is_victim(edges, clusters, c) {
        let c = choose|c: int| is_victim(edges, clusters, c);
        break_cycles(edges, clusters.remove(c))
    } else {
        clusters
    }
}

/// With disjoint clusters the home of a member is the first node of its cluster.
pub proof fn lemma_home(clusters: Seq<Seq<int>>, n: int, c: int, v: int)
    requires
        tidy(clusters, n),
        in_cluster(clusters, c, v),
    ensures
        home(clusters, v) == clusters[c][0],
{
    let d = choose|d: int| in_cluster(clusters, d, v);
    assert(in_cluster(clusters, d, v));
}

pub proof fn lemma_tidy_remove(clusters: Seq<Seq<int>>, n: int, at: int)
    requires
        tidy(clusters, n),
        0 <= at < clusters.len(),
    ensures
        tidy(clusters.remove(at), n),
{
    let rest = clusters.remove(at);
    let back = |c: int|
        if c < at {
            c
        } else {
            c + 1
        };
    assert forall|c: int, v: int| #[trigger] in_cluster(rest, c, v) implies 0 <= v < n
        && in_cluster(clusters, back(c), v) by {
        assert(rest[c] == clusters[back(c)]);
        assert(in_cluster(clusters, back(c), v));
    }
    assert forall|c: int, d: int, v: int| #[trigger] in_cluster(rest, c, v) && #[trigger] in_cluster(rest, d, v) implies c
        == d by {
        assert(in_cluster(clusters, back(c), v));
        assert(in_cluster(clusters, back(d), v));
    }
}

/// The homes of all nodes.
fn homes(clusters: &Vec<Vec<usize>>, n: usize) -> (ids: Vec<usize>)
    requires
        tidy(rows(clusters@), n as int),
    ensures
        ids@.len() == n,
        forall|v: int| 0 <= v < n ==> #[trigger] ids@[v] == home(rows(clusters@), v),
        forall|v: int| 0 <= v < n ==> #[trigger] ids@[v] < n,
{
    let ghost groups = rows(clusters@);
    let mut ids: Vec<usize> = Vec::new();
    while ids.len() < n
        invariant
            ids@.len() <= n,
            forall|v: int| 0 <= v < ids@.len() ==> #[trigger] ids@[v] == v,
        decreases n - ids@.len(),
    {
        let next: usize = ids.len();
        ids.push(next);
    }
    let mut cluster: usize = 0;
    while cluster < clusters.len()
        invariant
            cluster <= clusters@.len(),
            groups == rows(clusters@),
            tidy(groups, n as int),
            ids@.len() == n,
            forall|v: int|
                0 <= v < n && (forall|c: int|
                    0 <= c < cluster ==> !in_cluster(groups, c, v)) ==> #[trigger] ids@[v] == v,
            forall|c: int, v: int|
                0 <= c < cluster && #[trigger] in_cluster(groups, c, v) ==> ids@[v]
                    == groups[c][0],
        decreases clusters@.len() - cluster,
    {
        let ghost held = ids@;
        assert(groups[cluster as int].len() > 0);
        let first: usize = clusters[cluster][0];
        assert(in_cluster(groups, cluster as int, first as int)) by {
            assert(groups[cluster as int][0] == first);
        }
        let mut at: usize = 0;
        while at < clusters[cluster].len()
            invariant
                cluster < clusters@.len(),
                groups == rows(clusters@),
                tidy(groups, n as int),
                ids@.len() == n,
                held.len() == n,
                first == groups[cluster as int][0],
                at <= groups[cluster as int].len(),
                forall|v: int|
                    0 <= v < n && !in_cluster(groups, cluster as int, v) ==> #[trigger] ids@[v]
                        == held[v],
                forall|i: int|
                    0 <= i < at ==> ids@[#[trigger] groups[cluster as int][i]] == first,
            decreases groups[cluster as int].len() - at,
        {
            let node: usize = clusters[cluster][at];
            assert(groups[cluster as int][at as int] == node);
            assert(in_cluster(groups, cluster as int, node as int));
            ids.set(node, first);
            proof {
                assert forall|i: int| 0 <= i < at + 1 implies ids@[#[trigger] groups[cluster as int][i]]
                    == first by {
                    assert(in_cluster(groups, cluster as int, groups[cluster as int][i]));
                }
            }
            at = at + 1;
        }
        proof {
            assert forall|c: int, v: int|
                0 <= c < cluster + 1 && #[trigger] in_cluster(groups, c, v) implies ids@[v]
                == groups[c][0] by {
                if c < cluster {
                    assert(!in_cluster(groups, cluster as int, v));
                } else {
                    let i = choose|i: int| 0 <= i < groups[c].len() && groups[c][i] == v;
                    assert(ids@[groups[cluster as int][i]] == first);
                }
            }
            assert forall|v: int|
                0 <= v < n && (forall|c: int|
                    0 <= c < cluster + 1 ==> !in_cluster(groups, c, v)) implies #[trigger] ids@[v]
                == v by {
                assert(!in_cluster(groups, cluster as int, v));
                assert(held[v] == v);
            }
        }
        cluster = cluster + 1;
    }
    proof {
        assert forall|v: int| 0 <= v < n implies #[trigger] ids@[v] == home(groups, v) && ids@[v]
            < n by {
            if exists|c: int| in_cluster(groups, c, v) {
                let c = choose|c: int| in_cluster(groups, c, v);
                lemma_home(groups, n as int, c, v);
                assert(in_cluster(groups, c, groups[c][0]));
            }
        }
    }
    ids
}

/// The edges `from -> to` between homes found in the rows before `node` and in the first `edge`
/// entries of row `node`.
spec fn found(
    adj: Seq<Seq<int>>,
    ids: Seq<int>,
    node: int,
    edge: int,
    from: int,
    to: int,
) -> bool {
    from != to && exists|a: int, j: int|
        #![trigger adj[a][j]]
        0 <= a < adj.len() && 0 <= j < adj[a].len() && (a < node || (a == node && j < edge))
            && ids[a] == from && ids[adj[a][j]] == to
}

proof fn lemma_found_next(
    adj: Seq<Seq<int>>,
    ids: Seq<int>,
    node: int,
    edge: int,
    from: int,
    to: int,
)
    requires
        0 <= node < adj.len(),
        0 <= edge < adj[node].len(),
    ensures
        found(adj, ids, node, edge + 1, from, to) <==> (found(adj, ids, node, edge, from, to) || (
        from != to && ids[node] == from && ids[adj[node][edge]] == to)),
{
    if found(adj, ids, node, edge + 1, from, to) {
        let (a, j) = choose|a: int, j: int|
            #![trigger adj[a][j]]
            0 <= a < adj.len() && 0 <= j < adj[a].len() && (a < node || (a == node && j < edge + 1))
                && ids[a] == from && ids[adj[a][j]] == to;
        if a < node || j < edge {
            assert(adj[a][j] == adj[a][j]);
        }
    }
    if found(adj, ids, node, edge, from, to) {
        let (a, j) = choose|a: int, j: int|
            #![trigger adj[a][j]]
            0 <= a < adj.len() && 0 <= j < adj[a].len() && (a < node || (a == node && j < edge))
                && ids[a] == from && ids[adj[a][j]] == to;
        assert(adj[a][j] == adj[a][j]);
    }
    if from != to && ids[node] == from && ids[adj[node][edge]] == to {
        assert(adj[node][edge] == adj[node][edge]);
    }
}

proof fn lemma_found_row(adj: Seq<Seq<int>>, ids: Seq<int>, node: int, from: int, to: int)
    requires
        0 <= node < adj.len(),
    ensures
        found(adj, ids, node, adj[node].len() as int, from, to) <==> found(
            adj,
            ids,
            node + 1,
            0,
            from,
            to,
        ),
{
    if found(adj, ids, node, adj[node].len() as int, from, to) {
        let (a, j) = choose|a: int, j: int|
            #![trigger adj[a][j]]
            0 <= a < adj.len() && 0 <= j < adj[a].len() && (a < node || (a == node && j
                < adj[node].len())) && ids[a] == from && ids[adj[a][j]] == to;
        assert(adj[a][j] == adj[a][j]);
    }
    if found(adj, ids, node + 1, 0, from, to) {
        let (a, j) = choose|a: int, j: int|
            #![trigger adj[a][j]]
            0 <= a < adj.len() && 0 <= j < adj[a].len() && (a < node + 1 || (a == node + 1 && j
                < 0)) && ids[a] == from && ids[adj[a][j]] == to;
        assert(adj[a][j] == adj[a][j]);
    }
}

/// Distinct in-range rows whose entries are counted by `degree`.
spec fn counted(adj: Seq<Seq<int>>, degree: Seq<usize>) -> bool {
    &&& degree.len() == adj.len()
    &&& in_range(adj)
    &&& forall|v: int| 0 <= v < adj.len() ==> (#[trigger] adj[v]).no_duplicates()
    &&& forall|v: int| 0 <= v < adj.len() ==> #[trigger] degree[v] == in_degree(adj, v)
}

/// Adds the edge `from -> to` between homes unless it is there.
fn link(
    lists: &mut Vec<Vec<usize>>,
    seen: &mut Vec<Vec<u64>>,
    degree: &mut Vec<usize>,
    from: usize,
    to: usize,
)
    requires
        counted(rows(old(lists)@), old(degree)@),
        old(seen)@.len() == old(lists)@.len(),
        forall|a: int|
            0 <= a < old(seen)@.len() ==> (#[trigger] old(seen)@[a])@.len() == word_count(
                old(seen)@.len() as int,
            ),
        forall|a: int, b: int|
            0 <= a < old(seen)@.len() && 0 <= b < old(seen)@.len() ==> (#[trigger] has_bit(
                old(seen)@[a]@,
                b,
            ) <==> rows(old(lists)@)[a].contains(b)),
        from < old(lists)@.len(),
        to < old(lists)@.len(),
    ensures
        final(lists)@.len() == old(lists)@.len(),
        counted(rows(final(lists)@), final(degree)@),
        final(seen)@.len() == final(lists)@.len(),
        forall|a: int|
            0 <= a < final(seen)@.len() ==> (#[trigger] final(seen)@[a])@.len() == word_count(
                final(seen)@.len() as int,
            ),
        forall|a: int, b: int|
            0 <= a < final(seen)@.len() && 0 <= b < final(seen)@.len() ==> (#[trigger] has_bit(
                final(seen)@[a]@,
                b,
            ) <==> rows(final(lists)@)[a].contains(b)),
        forall|a: int, b: int|
            0 <= a < final(lists)@.len() && 0 <= b < final(lists)@.len() ==> (#[trigger] rows(
                final(lists)@,
            )[a].contains(b) <==> (rows(old(lists)@)[a].contains(b) || (a == from && b == to))),
{
    if !bit_test(&seen[from], to) {
        let ghost before = rows(lists@);
        let ghost counts = degree@;
        let ghost marks = seen@;
        let ghost n = before.len() as int;
        lists[from].push(to);
        bit_set(&mut seen[from], to);
        let ghost after = rows(lists@);
        let ghost all = all_marked(before.len());
        proof {
            assert(has_bit(marks[from as int]@, to as int) <==> before[from as int].contains(
                to as int,
            ));
            let row = before[from as int];
            let grown = row.push(to as int);
            assert(after =~= before.update(from as int, grown)) by {
                assert(ints(lists@[from as int]@) =~= grown);
            }
            assert(grown.no_duplicates());
            assert forall|v: int| 0 <= v < n implies (#[trigger] after[v]).no_duplicates() by {
                assert(before[v].no_duplicates());
            }
            assert forall|v: int, j: int|
                0 <= v < after.len() && 0 <= j < after[v].len() implies 0 <= #[trigger] after[v][j]
                < after.len() by {
                if v == from && j == row.len() {
                } else {
                    assert(after[v][j] == before[v][j]);
                }
            }
            assert forall|v: int| 0 <= v < n implies #[trigger] in_degree(after, v) == in_degree(
                before,
                v,
            ) + (if v == to {
                1nat
            } else {
                0nat
            }) by {
                lemma_count_push(before, all, from as int, to as int, v, n);
            }
            lemma_count_distinct(after, all, to as int, n);
            assert(in_degree(after, to as int) <= lists.len());
            assert(counts[to as int] == in_degree(before, to as int));
            assert forall|a: int, b: int| 0 <= a < n && 0 <= b < n implies (#[trigger] rows(
                lists@,
            )[a].contains(b) <==> (before[a].contains(b) || (a == from && b == to))) by {
                if a == from {
                    if row.contains(b) {
                        let i = choose|i: int| 0 <= i < row.len() && row[i] == b;
                        assert(grown[i] == b);
                    }
                    if grown.contains(b) {
                        let i = choose|i: int| 0 <= i < grown.len() && grown[i] == b;
                        if i < row.len() {
                            assert(row[i] == b);
                        }
                    }
                    assert(grown[row.len() as int] == to);
                }
            }
            assert forall|a: int, b: int| 0 <= a < n && 0 <= b < n implies (#[trigger] has_bit(
                seen@[a]@,
                b,
            ) <==> after[a].contains(b)) by {
                assert(has_bit(marks[a]@, b) <==> before[a].contains(b));
                assert(rows(lists@)[a].contains(b) <==> (before[a].contains(b) || (a == from && b
                    == to)));
            }
        }
        degree.set(to, degree[to] + 1);
        proof {
            assert forall|v: int| 0 <= v < n implies #[trigger] degree@[v] == in_degree(
                after,
                v,
            ) by {
                assert(counts[v] == in_degree(before, v));
                assert(in_degree(after, v) == in_degree(before, v) + (if v == to {
                    1nat
                } else {
                    0nat
                }));
            }
        }
    }
}

/// The contracted graph as adjacency lists, with its degrees.
fn contract(succ: &[Vec<usize>], ids: &Vec<usize>) -> (result: (Vec<Vec<usize>>, Vec<usize>))
    requires
        in_range(rows(succ@)),
        ids@.len() == succ@.len(),
        forall|v: int| 0 <= v < succ@.len() ==> #[trigger] ids@[v] < succ@.len(),
    ensures
        result.0@.len() == succ@.len(),
        counted(rows(result.0@), result.1@),
        forall|from: int, to: int|
            0 <= from < succ@.len() && 0 <= to < succ@.len() ==> (#[trigger] rows(
                result.0@,
            )[from].contains(to) <==> found(
                rows(succ@),
                ints(ids@),
                succ@.len() as int,
                0,
                from,
                to,
            )),
{
    let n: usize = succ.len();
    let ghost adj = rows(succ@);
    let ghost idv = ints(ids@);
    let mut lists: Vec<Vec<usize>> = Vec::new();
    let mut seen: Vec<Vec<u64>> = Vec::new();
    let mut degree: Vec<usize> = Vec::new();
    while lists.len() < n
        invariant
            lists@.len() <= n,
            seen@.len() == lists@.len(),
            degree@.len() == lists@.len(),
            forall|a: int| 0 <= a < lists@.len() ==> (#[trigger] lists@[a])@.len() == 0,
            forall|a: int| 0 <= a < lists@.len() ==> #[trigger] degree@[a] == 0,
            forall|a: int|
                0 <= a < lists@.len() ==> (#[trigger] seen@[a])@.len() == word_count(n as int),
            forall|a: int, b: int|
                0 <= a < lists@.len() && 0 <= b < bit_width(n as int) ==> !(#[trigger] has_bit(
                    seen@[a]@,
                    b,
                )),
        decreases n - lists@.len(),
    {
        lists.push(Vec::new());
        seen.push(bit_empty(n));
        degree.push(0);
    }
    proof {
        let empty = rows(lists@);
        assert forall|v: int| 0 <= v < n implies #[trigger] degree@[v] == in_degree(empty, v) by {
            lemma_count_empty(empty, all_marked(empty.len()), v, n as int);
        }
        assert forall|from: int, to: int| 0 <= from < n && 0 <= to < n implies !(#[trigger] rows(
            lists@,
        )[from].contains(to)) by {}
    }
    let mut node: usize = 0;
    while node < n
        invariant
            node <= n,
            n == succ@.len(),
            n == ids@.len(),
            n == lists@.len(),
            n == seen@.len(),
            adj == rows(succ@),
            idv == ints(ids@),
            in_range(adj),
            forall|v: int| 0 <= v < n ==> #[trigger] ids@[v] < n,
            counted(rows(lists@), degree@),
            forall|a: int| 0 <= a < n ==> (#[trigger] seen@[a])@.len() == word_count(n as int),
            forall|a: int, b: int|
                0 <= a < n && 0 <= b < n ==> (#[trigger] has_bit(seen@[a]@, b) <==> rows(
                    lists@,
                )[a].contains(b)),
            forall|from: int, to: int|
                0 <= from < n && 0 <= to < n ==> (#[trigger] rows(lists@)[from].contains(to)
                    <==> found(adj, idv, node as int, 0, from, to)),
        decreases n - node,
    {
        let mut edge: usize = 0;
        while edge < succ[node].len()
            invariant
                node < n,
                edge <= succ@[node as int]@.len(),
                n == succ@.len(),
                n == ids@.len(),
                n == lists@.len(),
                n == seen@.len(),
                adj == rows(succ@),
                idv == ints(ids@),
                in_range(adj),
                forall|v: int| 0 <= v < n ==> #[trigger] ids@[v] < n,
                counted(rows(lists@), degree@),
                forall|a: int| 0 <= a < n ==> (#[trigger] seen@[a])@.len() == word_count(n as int),
                forall|a: int, b: int|
                    0 <= a < n && 0 <= b < n ==> (#[trigger] has_bit(seen@[a]@, b) <==> rows(
                        lists@,
                    )[a].contains(b)),
                forall|from: int, to: int|
                    0 <= from < n && 0 <= to < n ==> (#[trigger] rows(lists@)[from].contains(to)
                        <==> found(adj, idv, node as int, edge as int, from, to)),
            decreases succ@[node as int]@.len() - edge,
        {
            let successor: usize = succ[node][edge];
            assert(adj[node as int][edge as int] == successor);
            let from: usize = ids[node];
            let to: usize = ids[successor];
            let ghost before = rows(lists@);
            if from != to {
                link(&mut lists, &mut seen, &mut degree, from, to);
            }
            proof {
                assert forall|x: int, y: int| 0 <= x < n && 0 <= y < n implies (#[trigger] rows(
                    lists@,
                )[x].contains(y) <==> found(adj, idv, node as int, edge + 1, x, y)) by {
                    lemma_found_next(adj, idv, node as int, edge as int, x, y);
                    assert(before[x].contains(y) <==> found(
                        adj,
                        idv,
                        node as int,
                        edge as int,
                        x,
                        y,
                    ));
                }
            }
            edge = edge + 1;
        }
        proof {
            assert forall|x: int, y: int| 0 <= x < n && 0 <= y < n implies (#[trigger] rows(
                lists@,
            )[x].contains(y) <==> found(adj, idv, node + 1, 0, x, y)) by {
                lemma_found_row(adj, idv, node as int, x, y);
            }
        }
        node = node + 1;
    }
    (lists, degree)
}

proof fn lemma_contracted(
    adj: Seq<Seq<int>>,
    clusters: Seq<Seq<int>>,
    ids: Seq<int>,
    lists: Seq<Seq<int>>,
)
    requires
        in_range(adj),
        in_range(lists),
        tidy(clusters, adj.len() as int),
        ids.len() == adj.len(),
        lists.len() == adj.len(),
        forall|v: int| 0 <= v < adj.len() ==> #[trigger] ids[v] == home(clusters, v),
        forall|v: int| 0 <= v < adj.len() ==> 0 <= #[trigger] ids[v] < adj.len(),
        forall|from: int, to: int|
            0 <= from < adj.len() && 0 <= to < adj.len() ==> (#[trigger] lists[from].contains(to)
                <==> found(adj, ids, adj.len() as int, 0, from, to)),
    ensures
        edges_of(lists) == quotient(edges_of(adj), clusters),
{
    let n = adj.len() as int;
    let edges = edges_of(adj);
    assert forall|e: (int, int)| edges_of(lists).contains(e) implies quotient(
        edges,
        clusters,
    ).contains(e) by {
        let i = choose|i: int| 0 <= i < lists[e.0].len() && lists[e.0][i] == e.1;
        assert(0 <= lists[e.0][i] < n);
        assert(lists[e.0].contains(e.1));
        let (a, j) = choose|a: int, j: int|
            #![trigger adj[a][j]]
            0 <= a < n && 0 <= j < adj[a].len() && (a < n || (a == n && j < 0)) && ids[a] == e.0
                && ids[adj[a][j]] == e.1;
        assert(0 <= adj[a][j] < n);
        assert(edges.contains((a, adj[a][j])));
        assert(ids[a] == home(clusters, a));
    }
    assert forall|e: (int, int)| quotient(edges, clusters).contains(e) implies edges_of(
        lists,
    ).contains(e) by {
        let (a, b) = choose|a: int, b: int| #[trigger]
            edges.contains((a, b)) && home(clusters, a) == e.0 && home(clusters, b) == e.1;
        let j = choose|j: int| 0 <= j < adj[a].len() && adj[a][j] == b;
        assert(adj[a][j] == b && 0 <= adj[a][j] < n);
        assert(ids[a] == e.0 && ids[b] == e.1);
        assert(found(adj, ids, n, 0, e.0, e.1));
        assert(lists[e.0].contains(e.1));
    }
    assert(edges_of(lists) =~= quotient(edges, clusters));
}

/// The cluster to give up next, if any is blocked.
fn find_victim(succ: &[Vec<usize>], clusters: &Vec<Vec<usize>>) -> (victim: Option<usize>)
    requires
        in_range(rows(succ@)),
        tidy(rows(clusters@), succ@.len() as int),
    ensures
        match victim {
            Some(c) => is_victim(edges_of(rows(succ@)), rows(clusters@), c as int),
            None => forall|c: int|
                0 <= c < clusters@.len() ==> !(#[trigger] blocked(
                    edges_of(rows(succ@)),
                    rows(clusters@),
                    c,
                )),
        },
{
    let n: usize = succ.len();
    let ghost edges = edges_of(rows(succ@));
    let ghost groups = rows(clusters@);
    let ids: Vec<usize> = homes(clusters, n);
    let (lists, mut degree) = contract(succ, &ids);
    proof {
        lemma_contracted(rows(succ@), groups, ints(ids@), rows(lists@));
    }
    let ghost exact = degree@;
    let order: Vec<usize> = peel(lists.as_slice(), &mut degree);
    proof {
        assert forall|v: int| 0 <= v < n implies (#[trigger] degree@[v] > 0 <==> behind_cycle(
            quotient(edges, groups),
            v,
        )) by {
            if ints(order@).contains(v) {
                lemma_listed_not_behind_cycle(rows(lists@), ints(order@), v);
            } else {
                assert forall|w: int| 0 <= w < n implies #[trigger] ints(exact)[w] == in_degree(
                    rows(lists@),
                    w,
                ) by {
                    assert(exact[w] == in_degree(rows(lists@), w));
                }
                lemma_unpeeled_behind_cycle(rows(lists@), ints(exact), ints(order@), v);
            }
        }
    }
    let mut victim: Option<usize> = None;
    let mut cluster: usize = 0;
    while cluster < clusters.len()
        invariant
            cluster <= clusters@.len(),
            n == succ@.len(),
            n == degree@.len(),
            groups == rows(clusters@),
            tidy(groups, n as int),
            edges == edges_of(rows(succ@)),
            forall|v: int|
                0 <= v < n ==> (#[trigger] degree@[v] > 0 <==> behind_cycle(
                    quotient(edges, groups),
                    v,
                )),
            match victim {
                Some(c) => {
                    &&& c < cluster
                    &&& blocked(edges, groups, c as int)
                    &&& forall|d: int|
                        0 <= d < cluster && #[trigger] blocked(edges, groups, d)
                            ==> groups[c as int].len() < groups[d].len() || (groups[c as int].len()
                            == groups[d].len() && c <= d)
                },
                None => forall|c: int|
                    0 <= c < cluster ==> !(#[trigger] blocked(edges, groups, c)),
            },
        decreases clusters@.len() - cluster,
    {
        assert(groups[cluster as int].len() > 0);
        let first: usize = clusters[cluster][0];
        assert(groups[cluster as int][0] == first);
        assert(in_cluster(groups, cluster as int, first as int));
        if degree[first] > 0 {
            match victim {
                Some(best) => {
                    if clusters[cluster].len() < clusters[best].len() {
                        victim = Some(cluster);
                    }
                },
                None => {
                    victim = Some(cluster);
                },
            }
        }
        cluster = cluster + 1;
    }
    victim
}

/// Gives up clusters until the contracted graph blocks none.
pub fn drop_cyclic_clusters(
    succ: &[Vec<usize>],
    clusters: Vec<Vec<usize>>,
) -> (kept: Vec<Vec<usize>>)
    requires
        in_range(rows(succ@)),
        tidy(rows(clusters@), succ@.len() as int),
    ensures
        rows(kept@) == break_cycles(edges_of(rows(succ@)), rows(clusters@)),
{
    let ghost edges = edges_of(rows(succ@));
    let ghost start = rows(clusters@);
    let mut kept: Vec<Vec<usize>> = clusters;
    loop
        invariant
            edges == edges_of(rows(succ@)),
            start == rows(clusters@),
            in_range(rows(succ@)),
            tidy(rows(kept@), succ@.len() as int),
            break_cycles(edges, start) == break_cycles(edges, rows(kept@)),
        decreases kept@.len(),
    {
        match find_victim(succ, &kept) {
            Some(cluster) => {
                let ghost before = rows(kept@);
                kept.remove(cluster);
                proof {
                    assert(rows(kept@) =~= before.remove(cluster as int));
                    let chosen = choose|c: int| is_victim(edges, before, c);
                    assert(is_victim(edges, before, chosen));
                    assert(blocked(edges, before, chosen) && blocked(edges, before, cluster as int));
                    assert(chosen == cluster);
                    lemma_tidy_remove(before, succ@.len() as int, cluster as int);
                }
            },
            None => {
                proof {
                    assert(!(exists|c: int| is_victim(edges, rows(kept@), c)));
                }
                return kept;
            },
        }
    }
}

} // verus!
