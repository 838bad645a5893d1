//! What holds of every set of clusters that `cluster_edges` returns.

use vstd::prelude::*;

use crate::cluster::{
    candidates, edge_clusters, identity, lemma_candidates_within, lemma_groups_tidy, merged_labels,
    orderable, reach_relation, row_candidates, Colours,
};
use crate::digraph::{
    acyclic, behind_cycle, edges_of, hop, in_range, is_walk, lemma_edge_reaches,
    lemma_lazy_walk, lemma_reaches_monotone, lemma_reaches_transitive, lemma_walk_part, reaches,
};
use crate::grouping::{groups, leaders, leads, lemma_select};
use crate::merge::{
    above, below, class_of, convex, edges_within, lemma_pass_shrinks, merge_fix, merge_pass,
    merge_step,
};
use crate::quotient::{
    blocked, break_cycles, home, in_cluster, is_victim, lemma_home, lemma_tidy_remove, quotient,
    tidy,
};
use crate::union_find::{relabel, rooted};

verus! {

/// The edges between alike members of `group`, in both directions.
pub open spec fn links(colours: Colours, edges: Set<(int, int)>, group: Set<int>) -> Set<
    (int, int),
> {
    Set::new(
        |e: (int, int)|
            group.contains(e.0) && group.contains(e.1) && colours.alike(e.0, e.1) && (
            edges.contains(e) || edges.contains((e.1, e.0))),
    )
}

/// Any two members are joined by a chain of edges inside the group.
pub open spec fn connected(colours: Colours, edges: Set<(int, int)>, group: Set<int>) -> bool {
    forall|a: int, b: int| #[trigger]
        group.contains(a) && #[trigger] group.contains(b) && a != b ==> reaches(
            links(colours, edges, group),
            a,
            b,
        )
}

/// What merging keeps true of the labels.
pub open spec fn sound(colours: Colours, adj: Seq<Seq<int>>, degree: Seq<int>, labels: Seq<int>) -> bool {
    &&& labels.len() == adj.len()
    &&& rooted(labels)
    &&& forall|a: int, b: int|
        0 <= a < labels.len() && 0 <= b < labels.len() && a != b && #[trigger] labels[a]
            == #[trigger] labels[b] ==> colours.alike(a, b)
    &&& forall|r: int|
        connected(colours, edges_of(adj), #[trigger] class_of(labels, r))
    &&& orderable(adj, degree) ==> forall|r: int|
        convex(reach_relation(adj, degree), #[trigger] class_of(labels, r))
}

proof fn lemma_row_candidate(colours: Colours, node: int, row: Seq<int>, i: int)
    requires
        0 <= i < row_candidates(colours, node, row).len(),
    ensures
        ({
            let e = row_candidates(colours, node, row)[i];
            e.0 == node && row.contains(e.1) && colours.alike(e.0, e.1)
        }),
    decreases row.len(),
{
    let front = row.drop_last();
    if i < row_candidates(colours, node, front).len() {
        lemma_row_candidate(colours, node, front, i);
        let e = row_candidates(colours, node, front)[i];
        let j = choose|j: int| 0 <= j < front.len() && front[j] == e.1;
        assert(row[j] == e.1);
    } else {
        assert(row[row.len() - 1] == row.last());
    }
}

proof fn lemma_candidate(colours: Colours, adj: Seq<Seq<int>>, k: int, i: int)
    requires
        0 <= k <= adj.len(),
        0 <= i < candidates(colours, adj, k).len(),
    ensures
        ({
            let e = candidates(colours, adj, k)[i];
            edges_of(adj).contains(e) && colours.alike(e.0, e.1)
        }),
    decreases k,
{
    let front = candidates(colours, adj, k - 1);
    if i < front.len() {
        lemma_candidate(colours, adj, k - 1, i);
    } else {
        lemma_row_candidate(colours, k - 1, adj[k - 1], i - front.len());
    }
}

proof fn lemma_row_candidate_listed(colours: Colours, node: int, row: Seq<int>, v: int)
    requires
        row.contains(v),
        colours.alike(node, v),
    ensures
        row_candidates(colours, node, row).contains((node, v)),
    decreases row.len(),
{
    let now = row_candidates(colours, node, row);
    let front = row_candidates(colours, node, row.drop_last());
    if row.last() == v {
        assert(now[front.len() as int] == (node, v));
    } else {
        let j = choose|j: int| 0 <= j < row.len() && row[j] == v;
        assert(row.drop_last()[j] == v);
        lemma_row_candidate_listed(colours, node, row.drop_last(), v);
        let i = choose|i: int| 0 <= i < front.len() && front[i] == (node, v);
        assert(now[i] == (node, v));
    }
}

/// An edge between alike nodes is a candidate.
pub proof fn lemma_candidate_listed(colours: Colours, adj: Seq<Seq<int>>, k: int, e: (int, int))
    requires
        0 <= k <= adj.len(),
        0 <= e.0 < k,
        edges_of(adj).contains(e),
        colours.alike(e.0, e.1),
    ensures
        candidates(colours, adj, k).contains(e),
    decreases k,
{
    let now = candidates(colours, adj, k);
    let front = candidates(colours, adj, k - 1);
    if e.0 < k - 1 {
        lemma_candidate_listed(colours, adj, k - 1, e);
        let i = choose|i: int| 0 <= i < front.len() && front[i] == e;
        assert(now[i] == e);
    } else {
        let row = row_candidates(colours, k - 1, adj[k - 1]);
        lemma_row_candidate_listed(colours, k - 1, adj[k - 1], e.1);
        let i = choose|i: int| 0 <= i < row.len() && row[i] == (k - 1, e.1);
        assert(now[front.len() + i] == e);
    }
}

proof fn lemma_identity_sound(colours: Colours, adj: Seq<Seq<int>>, degree: Seq<int>)
    ensures
        sound(colours, adj, degree, identity(adj.len())),
{
    let labels = identity(adj.len());
    let reach = reach_relation(adj, degree);
    assert forall|r: int| connected(colours, edges_of(adj), #[trigger] class_of(labels, r)) by {
        let group = class_of(labels, r);
        assert forall|a: int, b: int| #[trigger]
            group.contains(a) && #[trigger] group.contains(b) && a != b implies reaches(
            links(colours, edges_of(adj), group),
            a,
            b,
        ) by {
            assert(labels[a] == labels[b]);
        }
    }
    if orderable(adj, degree) {
        assert forall|r: int| convex(reach, #[trigger] class_of(labels, r)) by {
            let group = class_of(labels, r);
            assert forall|w: int| #[trigger] below(reach, group, w) && above(reach, group, w) implies group.contains(w) by {
                let a = choose|a: int| #[trigger] group.contains(a) && reach.contains((a, w));
                let b = choose|b: int| #[trigger] group.contains(b) && reach.contains((w, b));
                assert(a == r && b == r);
                lemma_reaches_transitive(edges_of(adj), a, w, b);
                assert(!reaches(edges_of(adj), r, r));
            }
        }
    }
}

proof fn lemma_connected_union(
    colours: Colours,
    edges: Set<(int, int)>,
    left: Set<int>,
    right: Set<int>,
    x: int,
    y: int,
)
    requires
        connected(colours, edges, left),
        connected(colours, edges, right),
        left.contains(x),
        right.contains(y),
        edges.contains((x, y)),
        colours.alike(x, y),
    ensures
        connected(colours, edges, left.union(right)),
{
    let both = left.union(right);
    let all = links(colours, edges, both);
    assert(links(colours, edges, left).subset_of(all));
    assert(links(colours, edges, right).subset_of(all));
    assert(all.contains((x, y)) && all.contains((y, x)));
    lemma_edge_reaches(all, x, y);
    lemma_edge_reaches(all, y, x);
    assert forall|a: int, b: int| #[trigger]
        both.contains(a) && #[trigger] both.contains(b) && a != b implies reaches(all, a, b) by {
        if left.contains(a) && left.contains(b) {
            lemma_reaches_monotone(links(colours, edges, left), all, a, b);
        } else if right.contains(a) && right.contains(b) {
            lemma_reaches_monotone(links(colours, edges, right), all, a, b);
        } else if left.contains(a) {
            if a != x {
                lemma_reaches_monotone(links(colours, edges, left), all, a, x);
                lemma_reaches_transitive(all, a, x, y);
            }
            if b != y {
                lemma_reaches_monotone(links(colours, edges, right), all, y, b);
                lemma_reaches_transitive(all, a, y, b);
            }
        } else {
            if a != y {
                lemma_reaches_monotone(links(colours, edges, right), all, a, y);
                lemma_reaches_transitive(all, a, y, x);
            }
            if b != x {
                lemma_reaches_monotone(links(colours, edges, left), all, x, b);
                lemma_reaches_transitive(all, a, x, b);
            }
        }
    }
}

proof fn lemma_step_sound(
    colours: Colours,
    adj: Seq<Seq<int>>,
    degree: Seq<int>,
    labels: Seq<int>,
    edge: (int, int),
)
    requires
        sound(colours, adj, degree, labels),
        edges_of(adj).contains(edge),
        0 <= edge.0 < adj.len(),
        0 <= edge.1 < adj.len(),
        colours.alike(edge.0, edge.1),
    ensures
        sound(colours, adj, degree, merge_step(reach_relation(adj, degree), labels, edge)),
{
    let reach = reach_relation(adj, degree);
    let left = labels[edge.0];
    let right = labels[edge.1];
    let next = merge_step(reach, labels, edge);
    if next != labels {
        let a = class_of(labels, left);
        let b = class_of(labels, right);
        assert(class_of(next, left) =~= a.union(b));
        assert(class_of(next, right) =~= Set::<int>::empty());
        assert forall|r: int| r != left && r != right implies #[trigger] class_of(next, r)
            == class_of(labels, r) by {
            assert(class_of(next, r) =~= class_of(labels, r));
        }
        assert(a.contains(edge.0) && b.contains(edge.1));
        lemma_connected_union(colours, edges_of(adj), a, b, edge.0, edge.1);
        assert forall|x: int, y: int|
            0 <= x < next.len() && 0 <= y < next.len() && x != y && #[trigger] next[x]
                == #[trigger] next[y] implies colours.alike(x, y) by {
            if labels[x] != labels[y] {
                assert(x == edge.0 || labels[x] != left || colours.alike(x, edge.0));
                assert(x == edge.1 || labels[x] != right || colours.alike(x, edge.1));
                assert(y == edge.0 || labels[y] != left || colours.alike(y, edge.0));
                assert(y == edge.1 || labels[y] != right || colours.alike(y, edge.1));
            }
        }
        assert forall|r: int| connected(colours, edges_of(adj), #[trigger] class_of(next, r)) by {
            if r != left && r != right {
                assert(class_of(next, r) == class_of(labels, r));
            }
        }
        if orderable(adj, degree) {
            assert forall|r: int| convex(reach, #[trigger] class_of(next, r)) by {
                if r != left && r != right {
                    assert(class_of(next, r) == class_of(labels, r));
                }
                if r == right {
                    let none = class_of(next, r);
                    assert forall|w: int| #[trigger] below(reach, none, w) && above(reach, none, w) implies none.contains(w) by {
                    }
                }
            }
        }
        assert(rooted(next)) by {
            assert forall|v: int| 0 <= v < next.len() implies 0 <= #[trigger] next[v] < next.len()
                && next[next[v]] == next[v] by {
                assert(0 <= labels[v] < labels.len() && labels[labels[v]] == labels[v]);
                assert(labels[left] == left);
            }
        }
    }
}

proof fn lemma_pass_sound(
    colours: Colours,
    adj: Seq<Seq<int>>,
    degree: Seq<int>,
    labels: Seq<int>,
    edges: Seq<(int, int)>,
)
    requires
        sound(colours, adj, degree, labels),
        edges_within(edges, adj.len() as int),
        forall|i: int|
            0 <= i < edges.len() ==> edges_of(adj).contains(#[trigger] edges[i]) && colours.alike(
                edges[i].0,
                edges[i].1,
            ),
    ensures
        sound(colours, adj, degree, merge_pass(reach_relation(adj, degree), labels, edges)),
    decreases edges.len(),
{
    if edges.len() > 0 {
        let front = edges.drop_last();
        assert forall|i: int| 0 <= i < front.len() implies edges_of(adj).contains(
            #[trigger] front[i],
        ) && colours.alike(front[i].0, front[i].1) && 0 <= front[i].0 < adj.len() && 0
            <= front[i].1 < adj.len() by {
            assert(front[i] == edges[i]);
        }
        lemma_pass_sound(colours, adj, degree, labels, front);
        assert(edges[edges.len() - 1] == edges.last());
        lemma_step_sound(
            colours,
            adj,
            degree,
            merge_pass(reach_relation(adj, degree), labels, front),
            edges.last(),
        );
    }
}

proof fn lemma_fix_sound(
    colours: Colours,
    adj: Seq<Seq<int>>,
    degree: Seq<int>,
    labels: Seq<int>,
    edges: Seq<(int, int)>,
)
    requires
        sound(colours, adj, degree, labels),
        edges_within(edges, adj.len() as int),
        forall|i: int|
            0 <= i < edges.len() ==> edges_of(adj).contains(#[trigger] edges[i]) && colours.alike(
                edges[i].0,
                edges[i].1,
            ),
    ensures
        ({
            let last = merge_fix(reach_relation(adj, degree), labels, edges);
            sound(colours, adj, degree, last) && merge_pass(
                reach_relation(adj, degree),
                last,
                edges,
            ) == last
        }),
    decreases labels.to_set().len(),
{
    let reach = reach_relation(adj, degree);
    lemma_pass_shrinks(reach, labels, edges);
    lemma_pass_sound(colours, adj, degree, labels, edges);
    let next = merge_pass(reach, labels, edges);
    if next != labels {
        lemma_fix_sound(colours, adj, degree, next, edges);
    }
}

/// The merged labels are sound, and another pass would not change them.
pub proof fn lemma_merged_sound(colours: Colours, adj: Seq<Seq<int>>, degree: Seq<int>)
    requires
        in_range(adj),
    ensures
        sound(colours, adj, degree, merged_labels(colours, adj, degree)),
        merge_pass(
            reach_relation(adj, degree),
            merged_labels(colours, adj, degree),
            candidates(colours, adj, adj.len() as int),
        ) == merged_labels(colours, adj, degree),
{
    let n = adj.len() as int;
    let edges = candidates(colours, adj, n);
    lemma_candidates_within(colours, adj, n);
    assert forall|i: int| 0 <= i < edges.len() implies edges_of(adj).contains(#[trigger] edges[i])
        && colours.alike(edges[i].0, edges[i].1) by {
        lemma_candidate(colours, adj, n, i);
    }
    lemma_identity_sound(colours, adj, degree);
    lemma_fix_sound(colours, adj, degree, identity(adj.len()), edges);
}

/// A pass that changes nothing had no edge to merge.
pub proof fn lemma_stable_pass(
    reach: Set<(int, int)>,
    labels: Seq<int>,
    edges: Seq<(int, int)>,
    i: int,
)
    requires
        edges_within(edges, labels.len() as int),
        merge_pass(reach, labels, edges) == labels,
        0 <= i < edges.len(),
    ensures
        merge_step(reach, labels, edges[i]) == labels,
    decreases edges.len(),
{
    let front = edges.drop_last();
    assert forall|j: int| 0 <= j < front.len() implies 0 <= (#[trigger] front[j]).0 < labels.len()
        && 0 <= front[j].1 < labels.len() by {
        assert(front[j] == edges[j]);
    }
    lemma_pass_shrinks(reach, labels, front);
    let middle = merge_pass(reach, labels, front);
    let one = seq![edges.last()];
    assert(edges[edges.len() - 1] == edges.last());
    assert(one.drop_last() =~= Seq::<(int, int)>::empty());
    assert(merge_pass(reach, middle, one.drop_last()) == middle);
    assert(merge_pass(reach, middle, one) == merge_step(reach, middle, edges.last()));
    lemma_pass_shrinks(reach, middle, one);
    assert(middle == labels);
    if i < front.len() {
        lemma_stable_pass(reach, labels, front, i);
        assert(front[i] == edges[i]);
    }
}

/// The members of a group of classes are the whole class.
pub proof fn lemma_group_is_class(supported: Seq<bool>, labels: Seq<int>, c: int)
    requires
        supported.len() == labels.len(),
        0 <= c < groups(supported, labels).len(),
        forall|a: int, b: int|
            0 <= a < labels.len() && 0 <= b < labels.len() && a != b && #[trigger] labels[a]
                == #[trigger] labels[b] ==> supported[a] && supported[b],
    ensures
        groups(supported, labels)[c].to_set() == class_of(
            labels,
            labels[groups(supported, labels)[c][0]],
        ),
        0 <= groups(supported, labels)[c][0] < labels.len(),
{
    let n = labels.len() as int;
    let lead = leaders(supported, labels, n);
    let group = groups(supported, labels)[c];
    lemma_select(|v: int| leads(supported, labels, v), n);
    assert(lead.contains(lead[c]));
    lemma_select(|v: int| supported[v] && labels[v] == labels[lead[c]], n);
    assert(group.contains(lead[c]));
    assert(group.contains(group[0]));
    assert forall|v: int| group.to_set().contains(v) <==> class_of(
        labels,
        labels[group[0]],
    ).contains(v) by {
        assert(group.to_set().contains(v) <==> group.contains(v));
        if class_of(labels, labels[group[0]]).contains(v) && v != lead[c] {
            assert(labels[v] == labels[lead[c]]);
            assert(supported[v]);
        }
    }
    assert(group.to_set() =~= class_of(labels, labels[group[0]]));
}

/// Groups are ascending and ordered by their first members.
pub proof fn lemma_groups_ascending(supported: Seq<bool>, labels: Seq<int>)
    requires
        supported.len() == labels.len(),
    ensures
        ascending(groups(supported, labels)),
{
    let n = labels.len() as int;
    let lead = leaders(supported, labels, n);
    let all = groups(supported, labels);
    lemma_select(|v: int| leads(supported, labels, v), n);
    assert forall|c: int, i: int, j: int|
        0 <= c < all.len() && 0 <= i < j < all[c].len() implies #[trigger] all[c][i]
        < #[trigger] all[c][j] by {
        lemma_select(|v: int| supported[v] && labels[v] == labels[lead[c]], n);
    }
    assert forall|c: int| 0 <= c < all.len() implies (#[trigger] all[c])[0] == lead[c] by {
        assert(lead.contains(lead[c]));
        lemma_select(|v: int| supported[v] && labels[v] == labels[lead[c]], n);
        assert(all[c].contains(lead[c]));
        let i = choose|i: int| 0 <= i < all[c].len() && all[c][i] == lead[c];
        assert(all[c].contains(all[c][0]));
        if i > 0 {
            assert(supported[all[c][0]]);
        }
    }
    assert forall|c: int, d: int| 0 <= c < d < all.len() implies (#[trigger] all[c])[0]
        < (#[trigger] all[d])[0] by {
        assert(lead[c] < lead[d]);
    }
}

/// Members ascend inside every cluster, and clusters ascend by their first members.
pub open spec fn ascending(clusters: Seq<Seq<int>>) -> bool {
    &&& forall|c: int, i: int, j: int|
        0 <= c < clusters.len() && 0 <= i < j < clusters[c].len() ==> #[trigger] clusters[c][i]
            < #[trigger] clusters[c][j]
    &&& forall|c: int, d: int|
        0 <= c < d < clusters.len() ==> (#[trigger] clusters[c])[0] < (#[trigger] clusters[d])[0]
}

/// Breaking cycles only drops clusters, and stops when none is blocked.
proof fn lemma_break_cycles(edges: Set<(int, int)>, clusters: Seq<Seq<int>>, n: int)
    requires
        tidy(clusters, n),
        ascending(clusters),
    ensures
        tidy(break_cycles(edges, clusters), n),
        ascending(break_cycles(edges, clusters)),
        forall|c: int|
            0 <= c < break_cycles(edges, clusters).len() ==> clusters.contains(
                #[trigger] break_cycles(edges, clusters)[c],
            ),
        forall|c: int|
            0 <= c < break_cycles(edges, clusters).len() ==> !(#[trigger] blocked(
                edges,
                break_cycles(edges, clusters),
                c,
            )),
    decreases clusters.len(),
{
    if exists|c: int| is_victim(edges, clusters, c) {
        let c = choose|c: int| is_victim(edges, clusters, c);
        let rest = clusters.remove(c);
        lemma_tidy_remove(clusters, n, c);
        let back = |d: int|
            if d < c {
                d
            } else {
                d + 1
            };
        assert forall|d: int| 0 <= d < rest.len() implies #[trigger] rest[d] == clusters[back(d)] by {}
        assert(ascending(rest));
        lemma_break_cycles(edges, rest, n);
        let last = break_cycles(edges, clusters);
        assert forall|d: int| 0 <= d < last.len() implies clusters.contains(#[trigger] last[d]) by {
            assert(rest.contains(last[d]));
            let i = choose|i: int| 0 <= i < rest.len() && rest[i] == last[d];
            assert(clusters[back(i)] == last[d]);
        }
    } else {
        assert forall|c: int| 0 <= c < clusters.len() implies !(#[trigger] blocked(
            edges,
            clusters,
            c,
        )) by {
            if blocked(edges, clusters, c) {
                let v = lemma_some_victim(edges, clusters, clusters.len() as int, c);
            }
        }
        assert forall|c: int| 0 <= c < clusters.len() implies clusters.contains(
            #[trigger] clusters[c],
        ) by {}
    }
}

/// Among blocked clusters below `k` one is first among the smallest.
proof fn lemma_some_victim(
    edges: Set<(int, int)>,
    clusters: Seq<Seq<int>>,
    k: int,
    c: int,
) -> (best: int)
    requires
        0 <= c < k <= clusters.len(),
        blocked(edges, clusters, c),
    ensures
        0 <= best < k,
        blocked(edges, clusters, best),
        forall|d: int|
            0 <= d < k && #[trigger] blocked(edges, clusters, d) ==> clusters[best].len()
                < clusters[d].len() || (clusters[best].len() == clusters[d].len() && best <= d),
        k == clusters.len() ==> is_victim(edges, clusters, best),
    decreases k,
{
    if exists|b: int| 0 <= b < k - 1 && blocked(edges, clusters, b) {
        let b = choose|b: int| 0 <= b < k - 1 && blocked(edges, clusters, b);
        let below = lemma_some_victim(edges, clusters, k - 1, b);
        if blocked(edges, clusters, k - 1) && clusters[k - 1].len() < clusters[below].len() {
            k - 1
        } else {
            below
        }
    } else {
        c
    }
}

proof fn lemma_final(colours: Colours, adj: Seq<Seq<int>>, degree: Seq<int>)
    requires
        in_range(adj),
        colours.supported.len() == adj.len(),
    ensures
        ({
            let labels = merged_labels(colours, adj, degree);
            let clusters = edge_clusters(colours, adj, degree);
            let all = groups(colours.supported, labels);
            &&& sound(colours, adj, degree, labels)
            &&& tidy(clusters, adj.len() as int)
            &&& ascending(clusters)
            &&& forall|c: int| 0 <= c < clusters.len() ==> all.contains(#[trigger] clusters[c])
            &&& forall|c: int|
                0 <= c < clusters.len() ==> !(#[trigger] blocked(edges_of(adj), clusters, c))
        }),
{
    let labels = merged_labels(colours, adj, degree);
    lemma_merged_sound(colours, adj, degree);
    lemma_groups_tidy(colours.supported, labels);
    lemma_groups_ascending(colours.supported, labels);
    lemma_break_cycles(edges_of(adj), groups(colours.supported, labels), adj.len() as int);
}

proof fn lemma_cluster_is_class(
    colours: Colours,
    adj: Seq<Seq<int>>,
    degree: Seq<int>,
    c: int,
)
    requires
        in_range(adj),
        colours.supported.len() == adj.len(),
        0 <= c < edge_clusters(colours, adj, degree).len(),
    ensures
        ({
            let labels = merged_labels(colours, adj, degree);
            let cluster = edge_clusters(colours, adj, degree)[c];
            &&& cluster.to_set() == class_of(labels, labels[cluster[0]])
            &&& forall|v: int| #[trigger]
                cluster.contains(v) ==> 0 <= v < adj.len() && colours.supported[v]
        }),
{
    let labels = merged_labels(colours, adj, degree);
    let all = groups(colours.supported, labels);
    let clusters = edge_clusters(colours, adj, degree);
    lemma_final(colours, adj, degree);
    assert(all.contains(clusters[c]));
    let g = choose|g: int| 0 <= g < all.len() && all[g] == clusters[c];
    lemma_groups_tidy(colours.supported, labels);
    lemma_group_is_class(colours.supported, labels, g);
    assert forall|v: int| #[trigger] clusters[c].contains(v) implies 0 <= v < adj.len()
        && colours.supported[v] by {
        assert(in_cluster(all, g, v));
    }
}

/// Clusters are nonempty, share no node, hold supported nodes only, ascend inside and are ordered
/// by their first nodes.
pub proof fn law_clusters_partition_supported(
    colours: Colours,
    adj: Seq<Seq<int>>,
    degree: Seq<int>,
)
    requires
        in_range(adj),
        colours.supported.len() == adj.len(),
    ensures
        tidy(edge_clusters(colours, adj, degree), adj.len() as int),
        ascending(edge_clusters(colours, adj, degree)),
        forall|c: int, v: int| #[trigger]
            in_cluster(edge_clusters(colours, adj, degree), c, v) ==> colours.supported[v],
{
    lemma_final(colours, adj, degree);
    let clusters = edge_clusters(colours, adj, degree);
    assert forall|c: int, v: int| #[trigger] in_cluster(clusters, c, v) implies colours.supported[v] by {
        lemma_cluster_is_class(colours, adj, degree, c);
    }
}

/// Two nodes share a cluster only if they agree in both colours.
pub proof fn law_clusters_uniform(
    colours: Colours,
    adj: Seq<Seq<int>>,
    degree: Seq<int>,
    c: int,
    a: int,
    b: int,
)
    requires
        in_range(adj),
        colours.supported.len() == adj.len(),
        in_cluster(edge_clusters(colours, adj, degree), c, a),
        in_cluster(edge_clusters(colours, adj, degree), c, b),
    ensures
        colours.alike(a, b),
{
    let labels = merged_labels(colours, adj, degree);
    let cluster = edge_clusters(colours, adj, degree)[c];
    lemma_final(colours, adj, degree);
    lemma_cluster_is_class(colours, adj, degree, c);
    assert(cluster.to_set().contains(a) && cluster.to_set().contains(b));
    if a != b {
        assert(labels[a] == labels[b]);
    }
}

/// The members of a cluster are joined by edges inside it.
pub proof fn law_clusters_connected(
    colours: Colours,
    adj: Seq<Seq<int>>,
    degree: Seq<int>,
    c: int,
)
    requires
        in_range(adj),
        colours.supported.len() == adj.len(),
        0 <= c < edge_clusters(colours, adj, degree).len(),
    ensures
        connected(colours, edges_of(adj), edge_clusters(colours, adj, degree)[c].to_set()),
{
    lemma_final(colours, adj, degree);
    lemma_cluster_is_class(colours, adj, degree, c);
}

/// A path leads to a path between contracted clusters, unless it stays within one.
proof fn lemma_contracted_path(edges: Set<(int, int)>, clusters: Seq<Seq<int>>, a: int, b: int)
    requires
        reaches(edges, a, b),
    ensures
        home(clusters, a) == home(clusters, b) || reaches(
            quotient(edges, clusters),
            home(clusters, a),
            home(clusters, b),
        ),
{
    let path = choose|path: Seq<int>| #[trigger]
        is_walk(edges, path) && path.len() >= 2 && path[0] == a && path.last() == b;
    let stops = Seq::new(path.len(), |i: int| home(clusters, path[i]));
    assert forall|k: int| 0 <= k < stops.len() - 1 implies hop(stops, k).0 == hop(stops, k).1
        || quotient(edges, clusters).contains(#[trigger] hop(stops, k)) by {
        assert(edges.contains(hop(path, k)));
        assert(edges.contains((path[k], path[k + 1])));
    }
    lemma_lazy_walk(quotient(edges, clusters), stops, 0, path.len() - 1);
}

/// No node outside a cluster lies on a path between two of its members: the cluster would wait for
/// itself.
pub proof fn law_clusters_convex(colours: Colours, adj: Seq<Seq<int>>, degree: Seq<int>, c: int)
    requires
        in_range(adj),
        colours.supported.len() == adj.len(),
        0 <= c < edge_clusters(colours, adj, degree).len(),
    ensures
        forall|a: int, w: int, b: int| #[trigger]
            reaches(edges_of(adj), a, w) && #[trigger] reaches(edges_of(adj), w, b) && edge_clusters(
                colours,
                adj,
                degree,
            )[c].contains(a) && edge_clusters(colours, adj, degree)[c].contains(b)
                ==> edge_clusters(colours, adj, degree)[c].contains(w),
{
    let n = adj.len() as int;
    let clusters = edge_clusters(colours, adj, degree);
    let cluster = clusters[c];
    let edges = edges_of(adj);
    let first = cluster[0];
    lemma_final(colours, adj, degree);
    assert(!blocked(edges, clusters, c));
    assert(cluster.contains(first));
    assert(in_cluster(clusters, c, first));
    assert forall|a: int, w: int, b: int| #[trigger]
        reaches(edges, a, w) && #[trigger] reaches(edges, w, b) && cluster.contains(a)
            && cluster.contains(b) implies cluster.contains(w) by {
        assert(in_cluster(clusters, c, a));
        assert(in_cluster(clusters, c, b));
        lemma_home(clusters, n, c, a);
        lemma_home(clusters, n, c, b);
        if !cluster.contains(w) {
            if exists|d: int| in_cluster(clusters, d, w) {
                let d = choose|d: int| in_cluster(clusters, d, w);
                lemma_home(clusters, n, d, w);
                assert(clusters[d].contains(clusters[d][0]));
                assert(in_cluster(clusters, d, clusters[d][0]));
            }
            assert(home(clusters, w) != first);
            lemma_contracted_path(edges, clusters, a, w);
            lemma_contracted_path(edges, clusters, w, b);
            lemma_reaches_transitive(quotient(edges, clusters), first, home(clusters, w), first);
            assert(behind_cycle(quotient(edges, clusters), first));
        }
    }
}

/// No cluster waits for a cycle once all clusters are contracted at the same time.
pub proof fn law_no_cluster_blocked(
    colours: Colours,
    adj: Seq<Seq<int>>,
    degree: Seq<int>,
    c: int,
)
    requires
        in_range(adj),
        colours.supported.len() == adj.len(),
        0 <= c < edge_clusters(colours, adj, degree).len(),
    ensures
        !blocked(edges_of(adj), edge_clusters(colours, adj, degree), c),
{
    lemma_final(colours, adj, degree);
}

/// Contracting every cluster of an acyclic graph leaves it acyclic.
pub proof fn law_contracted_acyclic(colours: Colours, adj: Seq<Seq<int>>, degree: Seq<int>)
    requires
        in_range(adj),
        colours.supported.len() == adj.len(),
        acyclic(edges_of(adj)),
    ensures
        acyclic(quotient(edges_of(adj), edge_clusters(colours, adj, degree))),
{
    let edges = edges_of(adj);
    let clusters = edge_clusters(colours, adj, degree);
    let contracted = quotient(edges, clusters);
    lemma_final(colours, adj, degree);
    assert forall|x: int| !#[trigger] reaches(contracted, x, x) by {
        if reaches(contracted, x, x) {
            let path = choose|path: Seq<int>| #[trigger]
                is_walk(contracted, path) && path.len() >= 2 && path[0] == x && path.last() == x;
            if exists|i: int, c: int|
                0 <= i < path.len() && 0 <= c < clusters.len() && #[trigger] path[i]
                    == (#[trigger] clusters[c])[0] {
                let (i, c) = choose|i: int, c: int|
                    0 <= i < path.len() && 0 <= c < clusters.len() && #[trigger] path[i]
                        == (#[trigger] clusters[c])[0];
                if i > 0 {
                    lemma_walk_part(contracted, path, 0, i);
                }
                assert(behind_cycle(contracted, clusters[c][0]));
                assert(blocked(edges, clusters, c));
            } else {
                assert forall|i: int| 0 <= i < path.len() - 1 implies edges.contains(
                    #[trigger] hop(path, i),
                ) by {
                    let e = hop(path, i);
                    assert(contracted.contains(e));
                    let (a, b) = choose|a: int, b: int| #[trigger]
                        edges.contains((a, b)) && home(clusters, a) == e.0 && home(clusters, b)
                            == e.1;
                    if exists|c: int| in_cluster(clusters, c, a) {
                        let c = choose|c: int| in_cluster(clusters, c, a);
                        lemma_home(clusters, adj.len() as int, c, a);
                        assert(path[i] == clusters[c][0]);
                    }
                    if exists|c: int| in_cluster(clusters, c, b) {
                        let c = choose|c: int| in_cluster(clusters, c, b);
                        lemma_home(clusters, adj.len() as int, c, b);
                        assert(path[i + 1] == clusters[c][0]);
                    }
                }
                assert(is_walk(edges, path));
                assert(reaches(edges, x, x));
            }
        }
    }
}

/// No two clusters joined by an edge of alike nodes could be merged into a convex one.
pub proof fn law_clusters_maximal(
    colours: Colours,
    adj: Seq<Seq<int>>,
    degree: Seq<int>,
    c: int,
    d: int,
    a: int,
    b: int,
)
    requires
        in_range(adj),
        colours.supported.len() == adj.len(),
        in_cluster(edge_clusters(colours, adj, degree), c, a),
        in_cluster(edge_clusters(colours, adj, degree), d, b),
        c != d,
        edges_of(adj).contains((a, b)),
        colours.alike(a, b),
    ensures
        !convex(
            reach_relation(adj, degree),
            edge_clusters(colours, adj, degree)[c].to_set().union(
                edge_clusters(colours, adj, degree)[d].to_set(),
            ),
        ),
{
    let n = adj.len() as int;
    let labels = merged_labels(colours, adj, degree);
    let clusters = edge_clusters(colours, adj, degree);
    let edges = candidates(colours, adj, n);
    let reach = reach_relation(adj, degree);
    lemma_final(colours, adj, degree);
    lemma_merged_sound(colours, adj, degree);
    lemma_cluster_is_class(colours, adj, degree, c);
    lemma_cluster_is_class(colours, adj, degree, d);
    lemma_candidates_within(colours, adj, n);
    lemma_candidate_listed(colours, adj, n, (a, b));
    let i = choose|i: int| 0 <= i < edges.len() && edges[i] == (a, b);
    lemma_stable_pass(reach, labels, edges, i);
    assert(clusters[c].to_set().contains(a) && clusters[d].to_set().contains(b));
    assert(clusters[c].to_set() == class_of(labels, labels[a]));
    assert(clusters[d].to_set() == class_of(labels, labels[b]));
    if labels[a] == labels[b] {
        assert(clusters[d].to_set().contains(a));
        assert(in_cluster(clusters, d, a));
    }
    if convex(reach, class_of(labels, labels[a]).union(class_of(labels, labels[b]))) {
        assert(relabel(labels, labels[a], labels[b])[b] == labels[a]);
    }
}

/// Every supported node belongs to a group of merged nodes.
pub proof fn lemma_groups_cover(supported: Seq<bool>, labels: Seq<int>, v: int, u: int)
    requires
        supported.len() == labels.len(),
        0 <= u <= v < labels.len(),
        supported[v],
        supported[u],
        labels[u] == labels[v],
    ensures
        exists|c: int| in_cluster(groups(supported, labels), c, v),
    decreases u,
{
    let n = labels.len() as int;
    let all = groups(supported, labels);
    if leads(supported, labels, u) {
        let lead = leaders(supported, labels, n);
        lemma_select(|w: int| leads(supported, labels, w), n);
        assert(lead.contains(u));
        let c = choose|c: int| 0 <= c < lead.len() && lead[c] == u;
        lemma_select(|w: int| supported[w] && labels[w] == labels[lead[c]], n);
        assert(all[c].contains(v));
        assert(in_cluster(all, c, v));
    } else {
        let w = choose|w: int| 0 <= w < u && #[trigger] supported[w] && labels[w] == labels[u];
        lemma_groups_cover(supported, labels, v, w);
    }
}

/// Where contracting the merged groups closes no cycle, every supported node is in a cluster.
pub proof fn law_clusters_cover(colours: Colours, adj: Seq<Seq<int>>, degree: Seq<int>, v: int)
    requires
        in_range(adj),
        colours.supported.len() == adj.len(),
        acyclic(
            quotient(
                edges_of(adj),
                groups(colours.supported, merged_labels(colours, adj, degree)),
            ),
        ),
        0 <= v < adj.len(),
        colours.supported[v],
    ensures
        exists|c: int| in_cluster(edge_clusters(colours, adj, degree), c, v),
{
    let labels = merged_labels(colours, adj, degree);
    let all = groups(colours.supported, labels);
    lemma_merged_sound(colours, adj, degree);
    lemma_groups_cover(colours.supported, labels, v, v);
    assert forall|c: int| !is_victim(edges_of(adj), all, c) by {}
    assert(edge_clusters(colours, adj, degree) == all);
}

} // verus!
