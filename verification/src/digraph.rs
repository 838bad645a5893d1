//! Directed graphs over `0..n`: walks, reachability, edge counting and topological peeling.

use vstd::prelude::*;

verus! {

/// The values of a machine-integer sequence as mathematical integers.
pub open spec fn ints(values: Seq<usize>) -> Seq<int> {
    Seq::new(values.len(), |i: int| values[i] as int)
}

/// The rows of an adjacency list.
pub open spec fn rows(lists: Seq<Vec<usize>>) -> Seq<Seq<int>> {
    Seq::new(lists.len(), |i: int| ints(lists[i]@))
}

/// Every entry of every row names a node.
pub open spec fn in_range(adj: Seq<Seq<int>>) -> bool {
    forall|v: int, j: int|
        0 <= v < adj.len() && 0 <= j < adj[v].len() ==> 0 <= #[trigger] adj[v][j] < adj.len()
}

/// The edge relation of an adjacency list.
pub open spec fn edges_of(adj: Seq<Seq<int>>) -> Set<(int, int)> {
    Set::new(|e: (int, int)| 0 <= e.0 < adj.len() && adj[e.0].contains(e.1))
}

/// The `i`-th step of a node sequence.
pub open spec fn hop(path: Seq<int>, i: int) -> (int, int) {
    (path[i], path[i + 1])
}

/// Consecutive nodes of `path` are joined by edges.
pub open spec fn is_walk(edges: Set<(int, int)>, path: Seq<int>) -> bool {
    path.len() >= 1 && forall|i: int|
        0 <= i < path.len() - 1 ==> edges.contains(#[trigger] hop(path, i))
}

/// Some walk of at least one edge leads from `from` to `to`.
pub open spec fn reaches(edges: Set<(int, int)>, from: int, to: int) -> bool {
    exists|path: Seq<int>| #[trigger]
        is_walk(edges, path) && path.len() >= 2 && path[0] == from && path.last() == to
}

/// No node reaches itself.
pub open spec fn acyclic(edges: Set<(int, int)>) -> bool {
    forall|v: int| !#[trigger] reaches(edges, v, v)
}

/// `v` lies on a cycle or downstream of one.
pub open spec fn behind_cycle(edges: Set<(int, int)>, v: int) -> bool {
    exists|c: int| #[trigger] reaches(edges, c, c) && (c == v || reaches(edges, c, v))
}

/// Two walks that meet make one.
pub proof fn lemma_reaches_transitive(edges: Set<(int, int)>, a: int, b: int, c: int)
    requires
        reaches(edges, a, b),
        reaches(edges, b, c),
    ensures
        reaches(edges, a, c),
{
    let p = choose|path: Seq<int>| #[trigger]
        is_walk(edges, path) && path.len() >= 2 && path[0] == a && path.last() == b;
    let q = choose|path: Seq<int>| #[trigger]
        is_walk(edges, path) && path.len() >= 2 && path[0] == b && path.last() == c;
    let r = p + q.skip(1);
    assert forall|i: int| 0 <= i < r.len() - 1 implies edges.contains(#[trigger] hop(r, i)) by {
        if i < p.len() - 1 {
            assert(hop(r, i) == hop(p, i));
        } else {
            assert(hop(r, i) == hop(q, i - (p.len() - 1)));
        }
    }
    assert(is_walk(edges, r));
}

/// One edge is a walk.
pub proof fn lemma_edge_reaches(edges: Set<(int, int)>, a: int, b: int)
    requires
        edges.contains((a, b)),
    ensures
        reaches(edges, a, b),
{
    let p = seq![a, b];
    assert(hop(p, 0) == (a, b));
    assert(is_walk(edges, p));
}

/// Reachability only grows with the relation.
pub proof fn lemma_reaches_monotone(small: Set<(int, int)>, large: Set<(int, int)>, a: int, b: int)
    requires
        small.subset_of(large),
        reaches(small, a, b),
    ensures
        reaches(large, a, b),
{
    let p = choose|path: Seq<int>| #[trigger]
        is_walk(small, path) && path.len() >= 2 && path[0] == a && path.last() == b;
    assert(is_walk(large, p));
}

/// A part of a walk is a walk.
pub proof fn lemma_walk_part(edges: Set<(int, int)>, path: Seq<int>, i: int, j: int)
    requires
        is_walk(edges, path),
        0 <= i < j < path.len(),
    ensures
        reaches(edges, path[i], path[j]),
{
    let p = path.subrange(i, j + 1);
    assert forall|k: int| 0 <= k < p.len() - 1 implies edges.contains(#[trigger] hop(p, k)) by {
        assert(hop(p, k) == hop(path, i + k));
    }
    assert(is_walk(edges, p));
}

/// A walk that may also stand still leads somewhere or nowhere.
pub proof fn lemma_lazy_walk(edges: Set<(int, int)>, stops: Seq<int>, i: int, j: int)
    requires
        forall|k: int|
            0 <= k < stops.len() - 1 ==> hop(stops, k).0 == hop(stops, k).1 || edges.contains(
                #[trigger] hop(stops, k),
            ),
        0 <= i <= j < stops.len(),
    ensures
        stops[i] == stops[j] || reaches(edges, stops[i], stops[j]),
    decreases j - i,
{
    if i < j {
        lemma_lazy_walk(edges, stops, i, j - 1);
        let e = hop(stops, j - 1);
        if e.0 != e.1 {
            assert(edges.contains((stops[j - 1], stops[j])));
            lemma_edge_reaches(edges, stops[j - 1], stops[j]);
            if stops[i] != stops[j - 1] {
                lemma_reaches_transitive(edges, stops[i], stops[j - 1], stops[j]);
            }
        }
    }
}

/// Among more values than there are slots, two coincide.
pub proof fn lemma_pigeonhole(values: Seq<int>, n: int)
    requires
        n >= 0,
        values.len() > n,
        forall|i: int| 0 <= i < values.len() ==> 0 <= #[trigger] values[i] < n,
    ensures
        exists|i: int, j: int| 0 <= i < j < values.len() && values[i] == values[j],
{
    if values.no_duplicates() {
        values.unique_seq_to_set();
        vstd::set_lib::lemma_int_range(0, n);
        assert(values.to_set().subset_of(vstd::set_lib::set_int_range(0, n)));
        vstd::set_lib::lemma_len_subset(values.to_set(), vstd::set_lib::set_int_range(0, n));
    }
}

/// Distinct values below `n` are at most `n`.
pub proof fn lemma_distinct_bounded(values: Seq<int>, n: int)
    requires
        n >= 0,
        values.no_duplicates(),
        forall|i: int| 0 <= i < values.len() ==> 0 <= #[trigger] values[i] < n,
    ensures
        values.len() <= n,
{
    if values.len() > n {
        lemma_pigeonhole(values, n);
    }
}

/// `n` distinct values below `n` are all of them.
pub proof fn lemma_distinct_exhaustive(values: Seq<int>, n: int, v: int)
    requires
        values.len() == n,
        values.no_duplicates(),
        forall|i: int| 0 <= i < values.len() ==> 0 <= #[trigger] values[i] < n,
        0 <= v < n,
    ensures
        values.contains(v),
{
    if !values.contains(v) {
        let more = values.push(v);
        assert(more.no_duplicates());
        lemma_distinct_bounded(more, n);
    }
}

/// Where every member of a nonempty region has a predecessor inside it, a cycle feeds each member.
pub proof fn lemma_backwards_closed_has_cycle(
    edges: Set<(int, int)>,
    region: Set<int>,
    n: int,
    v: int,
)
    requires
        n >= 0,
        forall|w: int| #[trigger] region.contains(w) ==> 0 <= w < n,
        forall|w: int| #[trigger]
            region.contains(w) ==> exists|u: int| region.contains(u) && edges.contains((u, w)),
        region.contains(v),
    ensures
        behind_cycle(edges, v),
{
    let path = lemma_backwards_walk(edges, region, v, n as nat);
    lemma_pigeonhole(path, n);
    let (i, j) = choose|i: int, j: int| 0 <= i < j < path.len() && path[i] == path[j];
    lemma_walk_part(edges, path, i, j);
    let c = path[i];
    assert(reaches(edges, c, c));
    if i < path.len() - 1 {
        lemma_walk_part(edges, path, i, path.len() - 1);
    }
}

proof fn lemma_backwards_walk(
    edges: Set<(int, int)>,
    region: Set<int>,
    v: int,
    steps: nat,
) -> (path: Seq<int>)
    requires
        forall|w: int| #[trigger]
            region.contains(w) ==> exists|u: int| region.contains(u) && edges.contains((u, w)),
        region.contains(v),
    ensures
        is_walk(edges, path),
        path.len() == steps + 1,
        path.last() == v,
        forall|i: int| 0 <= i < path.len() ==> region.contains(#[trigger] path[i]),
    decreases steps,
{
    if steps == 0 {
        seq![v]
    } else {
        let rest = lemma_backwards_walk(edges, region, v, (steps - 1) as nat);
        assert(region.contains(rest[0]));
        let u = choose|u: int| region.contains(u) && edges.contains((u, rest[0]));
        let path = seq![u] + rest;
        assert forall|i: int| 0 <= i < path.len() - 1 implies edges.contains(
            #[trigger] hop(path, i),
        ) by {
            if i > 0 {
                assert(hop(path, i) == hop(rest, i - 1));
            } else {
                assert(hop(path, i) == (u, rest[0]));
            }
        }
        path
    }
}

/// How often `v` occurs in a row.
pub open spec fn occurrences(row: Seq<int>, v: int) -> nat
    decreases row.len(),
{
    if row.len() == 0 {
        0
    } else {
        occurrences(row.drop_last(), v) + (if row.last() == v {
            1nat
        } else {
            0nat
        })
    }
}

pub proof fn lemma_occurrences_push(row: Seq<int>, x: int, v: int)
    ensures
        occurrences(row.push(x), v) == occurrences(row, v) + (if x == v {
            1nat
        } else {
            0nat
        }),
{
    assert(row.push(x).drop_last() =~= row);
}

pub proof fn lemma_occurrences_contains(row: Seq<int>, v: int)
    ensures
        occurrences(row, v) > 0 <==> row.contains(v),
    decreases row.len(),
{
    if row.len() > 0 {
        let front = row.drop_last();
        lemma_occurrences_contains(front, v);
        if row.contains(v) && row.last() != v {
            let i = choose|i: int| 0 <= i < row.len() && row[i] == v;
            assert(front[i] == v);
        }
        if front.contains(v) {
            let i = choose|i: int| 0 <= i < front.len() && front[i] == v;
            assert(row[i] == v);
        }
    }
}

pub proof fn lemma_occurrences_distinct(row: Seq<int>, v: int)
    requires
        row.no_duplicates(),
    ensures
        occurrences(row, v) == (if row.contains(v) {
            1nat
        } else {
            0nat
        }),
    decreases row.len(),
{
    lemma_occurrences_contains(row, v);
    if row.len() > 0 {
        let front = row.drop_last();
        lemma_occurrences_distinct(front, v);
        if front.contains(v) {
            let i = choose|i: int| 0 <= i < front.len() && front[i] == v;
            assert(row[i] == v && row[row.len() - 1] == row.last());
        }
    }
}

pub proof fn lemma_occurrences_prefix(row: Seq<int>, j: int, v: int)
    requires
        0 <= j <= row.len(),
    ensures
        occurrences(row.take(j), v) <= occurrences(row, v),
    decreases row.len(),
{
    if j < row.len() {
        assert(row.drop_last().take(j) =~= row.take(j));
        lemma_occurrences_prefix(row.drop_last(), j, v);
    } else {
        assert(row.take(j) =~= row);
    }
}

/// Edges into `v` from the marked nodes below `k`, with multiplicity.
pub open spec fn count_into(adj: Seq<Seq<int>>, marked: Seq<bool>, v: int, k: int) -> nat
    decreases k,
{
    if k <= 0 {
        0
    } else {
        count_into(adj, marked, v, k - 1) + (if marked[k - 1] {
            occurrences(adj[k - 1], v)
        } else {
            0
        })
    }
}

/// Every node marked.
pub open spec fn all_marked(n: nat) -> Seq<bool> {
    Seq::new(n, |i: int| true)
}

/// Edges into `v`, with multiplicity.
pub open spec fn in_degree(adj: Seq<Seq<int>>, v: int) -> nat {
    count_into(adj, all_marked(adj.len()), v, adj.len() as int)
}

pub proof fn lemma_count_mark(adj: Seq<Seq<int>>, marked: Seq<bool>, node: int, v: int, k: int)
    requires
        0 <= k <= adj.len(),
        marked.len() == adj.len(),
        0 <= node < adj.len(),
        !marked[node],
    ensures
        count_into(adj, marked.update(node, true), v, k) == count_into(adj, marked, v, k) + (if node
            < k {
            occurrences(adj[node], v)
        } else {
            0
        }),
    decreases k,
{
    if k > 0 {
        lemma_count_mark(adj, marked, node, v, k - 1);
    }
}

pub proof fn lemma_count_unmarked(adj: Seq<Seq<int>>, marked: Seq<bool>, v: int, k: int)
    requires
        forall|i: int| 0 <= i < k ==> !#[trigger] marked[i],
    ensures
        count_into(adj, marked, v, k) == 0,
    decreases k,
{
    if k > 0 {
        lemma_count_unmarked(adj, marked, v, k - 1);
    }
}

/// The marked count never exceeds the whole; where it falls short, an unmarked node has an edge.
pub proof fn lemma_count_against_degree(
    adj: Seq<Seq<int>>,
    marked: Seq<bool>,
    v: int,
    k: int,
    u: int,
) -> (w: int)
    requires
        0 <= k <= adj.len(),
        marked.len() == adj.len(),
    ensures
        ({
            let all = all_marked(adj.len());
            let part = count_into(adj, marked, v, k);
            let whole = count_into(adj, all, v, k);
            &&& part <= whole
            &&& part < whole ==> 0 <= w < k && !marked[w] && adj[w].contains(v)
            &&& part == whole && 0 <= u < k && adj[u].contains(v) ==> marked[u]
        }),
    decreases k,
{
    if k <= 0 {
        0
    } else {
        let below = lemma_count_against_degree(adj, marked, v, k - 1, u);
        lemma_occurrences_contains(adj[k - 1], v);
        if !marked[k - 1] && occurrences(adj[k - 1], v) > 0 {
            k - 1
        } else {
            below
        }
    }
}

/// Without repeated edges at most one edge comes from each node.
pub proof fn lemma_count_distinct(adj: Seq<Seq<int>>, marked: Seq<bool>, v: int, k: int)
    requires
        0 <= k <= adj.len(),
        forall|i: int| 0 <= i < adj.len() ==> #[trigger] adj[i].no_duplicates(),
    ensures
        count_into(adj, marked, v, k) <= k,
    decreases k,
{
    if k > 0 {
        lemma_count_distinct(adj, marked, v, k - 1);
        lemma_occurrences_distinct(adj[k - 1], v);
    }
}

/// Adding an edge `from -> to` adds one to the degree of `to` alone.
pub proof fn lemma_count_push(
    adj: Seq<Seq<int>>,
    marked: Seq<bool>,
    from: int,
    to: int,
    v: int,
    k: int,
)
    requires
        0 <= k <= adj.len(),
        0 <= from < adj.len(),
        marked[from],
    ensures
        count_into(adj.update(from, adj[from].push(to)), marked, v, k) == count_into(
            adj,
            marked,
            v,
            k,
        ) + (if from < k && to == v {
            1nat
        } else {
            0nat
        }),
    decreases k,
{
    if k > 0 {
        lemma_count_push(adj, marked, from, to, v, k - 1);
        lemma_occurrences_push(adj[from], to, v);
    }
}

pub proof fn lemma_count_empty(adj: Seq<Seq<int>>, marked: Seq<bool>, v: int, k: int)
    requires
        0 <= k <= adj.len(),
        forall|i: int| 0 <= i < adj.len() ==> (#[trigger] adj[i]).len() == 0,
    ensures
        count_into(adj, marked, v, k) == 0,
    decreases k,
{
    if k > 0 {
        lemma_count_empty(adj, marked, v, k - 1);
    }
}

} // verus!
