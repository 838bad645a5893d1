//! Claimed groups as a whole: each is convex and of one colour, and fusing them all leaves the
//! graph without cycles.

use vstd::prelude::*;

use crate::capability::{
    class_flags, claims_model, colours_of, double_flags, is_mixed_vision, layer_values,
    layered, text_view, whole_clusters, CapabilityQuery,
};
use crate::capability_laws::{
    apart, law_nodes_claimed_once, lemma_flatten_from, lemma_flatten_holds,
    lemma_split_flatten,
};
use crate::cluster::{edge_clusters, orderable};
use crate::cluster_laws::{
    law_clusters_convex, law_clusters_partition_supported, law_clusters_uniform,
    law_contracted_acyclic,
};
use crate::digraph::{
    acyclic, edges_of, hop, is_walk, lemma_edge_reaches, lemma_lazy_walk, lemma_reaches_transitive,
    reaches,
};
use crate::ir::{ir_feeds, ir_order, ir_read_by, ir_ready, IrState};
use crate::partition::{
    cut_parts, law_runs, law_runs_convex, law_split_keeps_nodes, lemma_forward, lemma_run_alike,
    row_lengths, runs, split_clusters,
};
use crate::quotient::{home, in_cluster, lemma_home, quotient, tidy};
use crate::rejection::ClaimFacts;
use crate::snapshot::Shot;
use crate::span::{law_span_positive, partition_span};
use crate::topology::{agreed, backward_rows, forward_rows, lemma_degrees, lemma_rows, linked};

verus! {

/// The positions of the nodes of each row.
pub open spec fn placed(order: Seq<u32>, rows: Seq<Seq<u32>>) -> Seq<Seq<int>> {
    Seq::new(
        rows.len(),
        |c: int| Seq::new(rows[c].len(), |i: int| order.index_of(rows[c][i])),
    )
}

/// No node outside a group lies on a path between two of its members.
pub open spec fn closed_under_paths(edges: Set<(int, int)>, group: Seq<int>) -> bool {
    forall|a: int, w: int, b: int| #[trigger]
        reaches(edges, a, w) && #[trigger] reaches(edges, w, b) && group.contains(a)
            && group.contains(b) ==> group.contains(w)
}

/// The members of each group ascend.
pub open spec fn rising(groups: Seq<Seq<int>>) -> bool {
    forall|c: int, i: int, j: int|
        0 <= c < groups.len() && 0 <= i < j < groups[c].len() ==> #[trigger] groups[c][i]
            < #[trigger] groups[c][j]
}

/// `part` is a stretch of `whole`.
pub open spec fn is_stretch<T>(part: Seq<T>, whole: Seq<T>, lo: int) -> bool {
    &&& 0 <= lo
    &&& lo + part.len() <= whole.len()
    &&& part == whole.subrange(lo, lo + part.len())
}

/// Every reader is listed after the nodes whose outputs it reads.
pub open spec fn readers_follow(ir: IrState, order: Seq<u32>) -> bool {
    forall|u: int, v: int| #[trigger]
        edges_of(forward_rows(ir, order)).contains((u, v)) ==> u < v
}

/// Where readers and producers agree, readers follow in a topological order, and clusters grow by
/// true reachability.
pub proof fn law_agreed_readers_follow(ir: IrState, order: Seq<u32>)
    requires
        linked(ir),
        ir_order(ir, order),
        agreed(ir, order),
    ensures
        readers_follow(ir, order),
        orderable(forward_rows(ir, order), row_lengths(backward_rows(ir, order))),
{
    let adj = forward_rows(ir, order);
    let edges = edges_of(adj);
    lemma_rows(ir, order);
    assert forall|u: int, v: int| #[trigger] edges.contains((u, v)) implies u < v by {
        assert(adj[u].contains(v));
        assert(ir_read_by(ir, order[u] as int, order[v] as int));
        assert(ir_feeds(ir, order[u] as int, order[v] as int));
        assert(ir_ready(ir, order.take(v), order[v] as int));
        assert(order[u] < ir.nodes.len());
        assert(order.take(v).contains(order[u]));
        let i = choose|i: int| 0 <= i < v && order.take(v)[i] == order[u];
        assert(order[i] == order[u]);
    }
    lemma_forward_acyclic(edges);
    assert forall|v: int| 0 <= v < adj.len() implies #[trigger] row_lengths(
        backward_rows(ir, order),
    )[v] == crate::digraph::in_degree(adj, v) by {
        lemma_degrees(ir, order, v);
    }
}

proof fn lemma_index(order: Seq<u32>, i: int)
    requires
        order.no_duplicates(),
        0 <= i < order.len(),
    ensures
        order.index_of(order[i]) == i,
{
    assert(order.contains(order[i]));
}

/// Each group can be fused, and all of them together.
spec fn fusible(adj: Seq<Seq<int>>, groups: Seq<Seq<int>>) -> bool {
    &&& forall|c: int|
        0 <= c < groups.len() ==> closed_under_paths(edges_of(adj), #[trigger] groups[c])
    &&& acyclic(quotient(edges_of(adj), groups))
}

/// What holds of the groups before they are split.
proof fn lemma_whole_fit(
    shot: Shot,
    order: Seq<u32>,
    claims: Seq<ClaimFacts>,
    in_body: bool,
)
    requires
        linked(shot.ir),
        ir_order(shot.ir, order),
    ensures
        tidy(
            placed(order, whole_clusters(shot, order, claims, in_body)),
            order.len() as int,
        ),
        rising(placed(order, whole_clusters(shot, order, claims, in_body))),
        readers_follow(shot.ir, order) ==> fusible(
            forward_rows(shot.ir, order),
            placed(order, whole_clusters(shot, order, claims, in_body)),
        ),
        forall|c: int, i: int|
            0 <= c < whole_clusters(shot, order, claims, in_body).len() && 0 <= i < whole_clusters(
                shot,
                order,
                claims,
                in_body,
            )[c].len() ==> order.contains(
                #[trigger] whole_clusters(shot, order, claims, in_body)[c][i],
            ),
        forall|c: int, a: int, b: int|
            #![trigger
                in_cluster(placed(order, whole_clusters(shot, order, claims, in_body)), c, a),
                in_cluster(placed(order, whole_clusters(shot, order, claims, in_body)), c, b)]
            in_cluster(placed(order, whole_clusters(shot, order, claims, in_body)), c, a)
                && in_cluster(placed(order, whole_clusters(shot, order, claims, in_body)), c, b)
                ==> colours_of(shot, order, claims, in_body).alike(a, b),
{
    let colours = colours_of(shot, order, claims, in_body);
    let all = whole_clusters(shot, order, claims, in_body);
    let spots = placed(order, all);
    let adj = forward_rows(shot.ir, order);
    let edges = edges_of(adj);
    let degree = row_lengths(backward_rows(shot.ir, order));
    lemma_rows(shot.ir, order);
    if is_mixed_vision(shot, order, claims) {
        law_runs(colours, 0);
        let ranges = runs(colours, 0);
        assert forall|c: int| 0 <= c < all.len() implies #[trigger] spots[c] == Seq::new(
            (ranges[c].1 - ranges[c].0) as nat,
            |i: int| ranges[c].0 + i,
        ) by {
            assert(all[c] == order.subrange(ranges[c].0, ranges[c].1));
            assert forall|i: int| 0 <= i < all[c].len() implies #[trigger] spots[c][i]
                == ranges[c].0 + i by {
                assert(all[c][i] == order[ranges[c].0 + i]);
                lemma_index(order, ranges[c].0 + i);
            }
            assert(spots[c] =~= Seq::new(
                (ranges[c].1 - ranges[c].0) as nat,
                |i: int| ranges[c].0 + i,
            ));
        }
        assert forall|c: int, v: int| #[trigger] in_cluster(spots, c, v) <==> 0 <= c < all.len()
            && ranges[c].0 <= v < ranges[c].1 by {
            if in_cluster(spots, c, v) {
                let i = choose|i: int| 0 <= i < spots[c].len() && spots[c][i] == v;
                assert(spots[c][i] == ranges[c].0 + i);
            }
            if 0 <= c < all.len() && ranges[c].0 <= v < ranges[c].1 {
                assert(spots[c][v - ranges[c].0] == v);
            }
        }
        assert(tidy(spots, adj.len() as int)) by {
            assert forall|c: int, d: int, v: int| #[trigger] in_cluster(spots, c, v)
                && #[trigger] in_cluster(spots, d, v) implies c == d by {
                if c < d {
                    assert(ranges[c].1 <= ranges[d].0);
                } else if d < c {
                    assert(ranges[d].1 <= ranges[c].0);
                }
            }
        }
        if readers_follow(shot.ir, order) {
            assert forall|c: int| 0 <= c < spots.len() implies closed_under_paths(
                edges,
                #[trigger] spots[c],
            ) by {
                assert forall|a: int, w: int, b: int| #[trigger] reaches(edges, a, w)
                    && #[trigger] reaches(edges, w, b) && spots[c].contains(a) && spots[c].contains(
                    b,
                ) implies spots[c].contains(w) by {
                    assert(in_cluster(spots, c, a));
                    assert(in_cluster(spots, c, b));
                    law_runs_convex(adj, ranges[c].0, ranges[c].1, a, w, b);
                    assert(in_cluster(spots, c, w));
                }
            }
            let contracted = quotient(edges, spots);
            assert forall|x: int, y: int| #[trigger] contracted.contains((x, y)) implies x < y by {
                let (a, b) = choose|a: int, b: int| #[trigger]
                    edges.contains((a, b)) && home(spots, a) == x && home(spots, b) == y;
                assert(a < b);
                let n = adj.len() as int;
                if exists|c: int| in_cluster(spots, c, a) {
                    let c = choose|c: int| in_cluster(spots, c, a);
                    lemma_home(spots, n, c, a);
                    assert(x == ranges[c].0);
                    if exists|d: int| in_cluster(spots, d, b) {
                        let d = choose|d: int| in_cluster(spots, d, b);
                        lemma_home(spots, n, d, b);
                        assert(y == ranges[d].0);
                        if d < c {
                            assert(ranges[d].1 <= ranges[c].0);
                        } else if c < d {
                            assert(ranges[c].1 <= ranges[d].0);
                        }
                    }
                } else if exists|d: int| in_cluster(spots, d, b) {
                    let d = choose|d: int| in_cluster(spots, d, b);
                    lemma_home(spots, n, d, b);
                    assert(y == ranges[d].0);
                    assert(!in_cluster(spots, d, a));
                }
            }
            lemma_forward_acyclic(contracted);
        }
        assert forall|c: int, a: int, b: int| #[trigger] in_cluster(spots, c, a)
            && #[trigger] in_cluster(spots, c, b) implies colours.alike(a, b) by {
            lemma_run_alike(colours, c, a, b);
        }
        assert forall|c: int, i: int| 0 <= c < all.len() && 0 <= i < all[c].len() implies order.contains(
            #[trigger] all[c][i],
        ) by {
            assert(all[c] == order.subrange(ranges[c].0, ranges[c].1));
            assert(all[c][i] == order[ranges[c].0 + i]);
        }
    } else {
        let groups = edge_clusters(colours, adj, degree);
        law_clusters_partition_supported(colours, adj, degree);
        if readers_follow(shot.ir, order) {
            lemma_forward_acyclic(edges);
            law_contracted_acyclic(colours, adj, degree);
        }
        assert forall|c: int, i: int| 0 <= c < all.len() && 0 <= i < all[c].len() implies order.contains(
            #[trigger] all[c][i],
        ) && spots[c][i] == groups[c][i] by {
            assert(all[c][i] == order[groups[c][i]]);
            assert(in_cluster(groups, c, groups[c][i]));
            lemma_index(order, groups[c][i]);
        }
        assert forall|c: int| 0 <= c < all.len() implies #[trigger] spots[c] == groups[c] by {
            assert forall|i: int| 0 <= i < spots[c].len() implies #[trigger] spots[c][i]
                == groups[c][i] by {
                assert(order.contains(all[c][i]));
            }
            assert(spots[c] =~= groups[c]);
        }
        assert(spots =~= groups);
        assert forall|c: int| 0 <= c < spots.len() implies closed_under_paths(
            edges,
            #[trigger] spots[c],
        ) by {
            law_clusters_convex(colours, adj, degree, c);
        }
        assert forall|c: int, a: int, b: int| #[trigger] in_cluster(spots, c, a)
            && #[trigger] in_cluster(spots, c, b) implies colours.alike(a, b) by {
            law_clusters_uniform(colours, adj, degree, c, a, b);
        }
    }
}

/// A relation that only leads upwards has no cycle.
pub proof fn lemma_forward_acyclic(edges: Set<(int, int)>)
    requires
        forall|x: int, y: int| #[trigger] edges.contains((x, y)) ==> x < y,
    ensures
        acyclic(edges),
{
    assert forall|v: int| !#[trigger] reaches(edges, v, v) by {
        if reaches(edges, v, v) {
            lemma_forward(edges, v, v);
        }
    }
}

proof fn lemma_climb(path: Seq<int>, i: int)
    requires
        forall|k: int| 0 <= k < path.len() - 1 ==> hop(path, k).0 < (#[trigger] hop(path, k)).1,
        1 <= i < path.len(),
    ensures
        path[0] < path[i],
    decreases i,
{
    if i > 1 {
        lemma_climb(path, i - 1);
    }
    assert(hop(path, i - 1).0 < hop(path, i - 1).1);
}

/// `part` is a stretch of some list.
spec fn cut_from<T>(part: Seq<T>, lists: Seq<Seq<T>>) -> bool {
    exists|d: int, lo: int| 0 <= d < lists.len() && #[trigger] is_stretch(part, lists[d], lo)
}

/// The parts are stretches of the groups and leave none of their nodes out.
spec fn refines(parts: Seq<Seq<int>>, groups: Seq<Seq<int>>) -> bool {
    &&& forall|p: int| 0 <= p < parts.len() ==> cut_from(#[trigger] parts[p], groups)
    &&& forall|d: int, v: int| #[trigger]
        in_cluster(groups, d, v) ==> exists|p: int| in_cluster(parts, p, v)
}

/// The group of a part, where one of its members is known to be in it.
proof fn lemma_part_in(parts: Seq<Seq<int>>, groups: Seq<Seq<int>>, n: int, p: int, d: int, v: int)
    -> (lo: int)
    requires
        tidy(groups, n),
        refines(parts, groups),
        in_cluster(parts, p, v),
        in_cluster(groups, d, v),
    ensures
        is_stretch(parts[p], groups[d], lo),
{
    let (e, lo) = choose|e: int, lo: int|
        0 <= e < groups.len() && #[trigger] is_stretch(parts[p], groups[e], lo);
    let i = choose|i: int| 0 <= i < parts[p].len() && parts[p][i] == v;
    assert(groups[e][lo + i] == v);
    assert(in_cluster(groups, e, v));
    lo
}

proof fn lemma_same_home(parts: Seq<Seq<int>>, groups: Seq<Seq<int>>, n: int, v: int)
    requires
        tidy(groups, n),
        tidy(parts, n),
        refines(parts, groups),
    ensures
        home(groups, home(parts, v)) == home(groups, v),
{
    if exists|p: int| in_cluster(parts, p, v) {
        let p = choose|p: int| in_cluster(parts, p, v);
        lemma_home(parts, n, p, v);
        let (d, lo) = choose|d: int, lo: int|
            0 <= d < groups.len() && #[trigger] is_stretch(parts[p], groups[d], lo);
        let i = choose|i: int| 0 <= i < parts[p].len() && parts[p][i] == v;
        assert(groups[d][lo + i] == v);
        assert(groups[d][lo] == parts[p][0]);
        assert(in_cluster(groups, d, v));
        assert(in_cluster(groups, d, parts[p][0]));
        lemma_home(groups, n, d, v);
        lemma_home(groups, n, d, parts[p][0]);
    }
}

/// An edge between two parts of the same group leads from the earlier to the later.
proof fn lemma_parts_ordered(
    parts: Seq<Seq<int>>,
    groups: Seq<Seq<int>>,
    n: int,
    a: int,
    b: int,
)
    requires
        tidy(groups, n),
        tidy(parts, n),
        rising(groups),
        refines(parts, groups),
        a < b,
        home(groups, a) == home(groups, b),
        home(parts, a) != home(parts, b),
    ensures
        home(parts, a) < home(parts, b),
{
    if exists|c: int| in_cluster(groups, c, a) {
        let c = choose|c: int| in_cluster(groups, c, a);
        lemma_home(groups, n, c, a);
        if exists|d: int| in_cluster(groups, d, b) {
            let d = choose|d: int| in_cluster(groups, d, b);
            lemma_home(groups, n, d, b);
            assert(in_cluster(groups, c, groups[c][0]));
            assert(in_cluster(groups, d, groups[d][0]));
            assert(c == d);
        } else {
            assert(b == groups[c][0]);
            assert(in_cluster(groups, c, b));
        }
        assert(in_cluster(groups, c, b));
        let p = choose|p: int| in_cluster(parts, p, a);
        let q = choose|q: int| in_cluster(parts, q, b);
        assert(in_cluster(parts, p, a));
        assert(in_cluster(parts, q, b));
        lemma_home(parts, n, p, a);
        lemma_home(parts, n, q, b);
        let from = lemma_part_in(parts, groups, n, p, c, a);
        let to = lemma_part_in(parts, groups, n, q, c, b);
        let i = choose|i: int| 0 <= i < parts[p].len() && parts[p][i] == a;
        let j = choose|j: int| 0 <= j < parts[q].len() && parts[q][j] == b;
        assert(groups[c][from + i] == a);
        assert(groups[c][to + j] == b);
        if from + i > to + j {
            assert(groups[c][to + j] < groups[c][from + i]);
        }
        assert(from + i < to + j);
        if from >= to {
            // The earlier stretch would reach into the later one.
            assert(parts[q][from - to] == groups[c][from]);
            assert(parts[p][0] == groups[c][from]);
            assert(in_cluster(parts, q, parts[p][0]));
            assert(in_cluster(parts, p, parts[p][0]));
            assert(p == q);
        }
        assert(parts[p][0] == groups[c][from]);
        assert(parts[q][0] == groups[c][to]);
        assert(groups[c][from] < groups[c][to]);
    } else {
        if exists|d: int| in_cluster(groups, d, b) {
            let d = choose|d: int| in_cluster(groups, d, b);
            lemma_home(groups, n, d, b);
            assert(in_cluster(groups, d, groups[d][0]));
            assert(in_cluster(groups, d, a));
        }
    }
}

/// Cutting groups along the order brings no cycle into the contracted graph.
proof fn lemma_cut_acyclic(
    edges: Set<(int, int)>,
    parts: Seq<Seq<int>>,
    groups: Seq<Seq<int>>,
    n: int,
)
    requires
        forall|u: int, v: int| #[trigger] edges.contains((u, v)) ==> u < v,
        tidy(groups, n),
        tidy(parts, n),
        rising(groups),
        refines(parts, groups),
        acyclic(quotient(edges, groups)),
    ensures
        acyclic(quotient(edges, parts)),
{
    let coarse = quotient(edges, groups);
    let fine = quotient(edges, parts);
    assert forall|x: int| !#[trigger] reaches(fine, x, x) by {
        if reaches(fine, x, x) {
            let path = choose|path: Seq<int>| #[trigger]
                is_walk(fine, path) && path.len() >= 2 && path[0] == x && path.last() == x;
            let stops = Seq::new(path.len(), |i: int| home(groups, path[i]));
            let last = path.len() - 1;
            assert forall|k: int| 0 <= k < stops.len() - 1 implies hop(stops, k).0 == hop(
                stops,
                k,
            ).1 || coarse.contains(#[trigger] hop(stops, k)) by {
                let e = hop(path, k);
                assert(fine.contains(e));
                let (a, b) = choose|a: int, b: int| #[trigger]
                    edges.contains((a, b)) && home(parts, a) == e.0 && home(parts, b) == e.1;
                lemma_same_home(parts, groups, n, a);
                lemma_same_home(parts, groups, n, b);
            }
            if exists|k: int|
                0 <= k < stops.len() - 1 && hop(stops, k).0 != (#[trigger] hop(stops, k)).1 {
                let k = choose|k: int|
                    0 <= k < stops.len() - 1 && hop(stops, k).0 != (#[trigger] hop(stops, k)).1;
                let (y, z) = (stops[k], stops[k + 1]);
                assert(coarse.contains((y, z)));
                lemma_edge_reaches(coarse, y, z);
                lemma_lazy_walk(coarse, stops, k + 1, last);
                lemma_lazy_walk(coarse, stops, 0, k);
                assert(stops[0] == stops[last]);
                if z != stops[last] {
                    lemma_reaches_transitive(coarse, y, z, stops[last]);
                }
                if stops[0] != y {
                    lemma_reaches_transitive(coarse, y, stops[0], y);
                }
                assert(reaches(coarse, y, y));
            } else {
                assert forall|k: int| 0 <= k < path.len() - 1 implies hop(path, k).0 < (
                #[trigger] hop(path, k)).1 by {
                    let e = hop(path, k);
                    assert(fine.contains(e));
                    let (a, b) = choose|a: int, b: int| #[trigger]
                        edges.contains((a, b)) && home(parts, a) == e.0 && home(parts, b) == e.1;
                    lemma_same_home(parts, groups, n, a);
                    lemma_same_home(parts, groups, n, b);
                    assert(hop(stops, k).0 == hop(stops, k).1);
                    lemma_parts_ordered(parts, groups, n, a, b);
                }
                lemma_climb(path, last);
            }
        }
    }
}

proof fn lemma_flatten_stretch(parts: Seq<Seq<u32>>, p: int) -> (lo: int)
    requires
        0 <= p < parts.len(),
    ensures
        is_stretch(parts[p], parts.flatten(), lo),
    decreases parts.len(),
{
    let front = parts.drop_last();
    assert(front.push(parts.last()) =~= parts);
    front.lemma_flatten_push(parts.last());
    let flat = front.flatten();
    if p < parts.len() - 1 {
        assert(front[p] == parts[p]);
        let lo = lemma_flatten_stretch(front, p);
        assert(parts[p] =~= (flat + parts.last()).subrange(lo, lo + parts[p].len()));
        lo
    } else {
        let lo = flat.len() as int;
        assert(parts[p] =~= (flat + parts.last()).subrange(lo, lo + parts[p].len()));
        lo
    }
}

proof fn lemma_split_stretch(
    ir: IrState,
    ends: Set<u32>,
    span: nat,
    clusters: Seq<Seq<u32>>,
    p: int,
) -> (place: (int, int))
    requires
        span > 0,
        0 <= p < split_clusters(ir, ends, span, clusters).len(),
    ensures
        0 <= place.0 < clusters.len(),
        is_stretch(split_clusters(ir, ends, span, clusters)[p], clusters[place.0], place.1),
        split_clusters(ir, ends, span, clusters)[p].len() > 0,
    decreases clusters.len(),
{
    let front = clusters.drop_last();
    let before = split_clusters(ir, ends, span, front);
    let parts = cut_parts(ir, ends, span, clusters.last());
    if p < before.len() {
        let place = lemma_split_stretch(ir, ends, span, front, p);
        assert(front[place.0] == clusters[place.0]);
        place
    } else {
        law_split_keeps_nodes(ir, ends, span, clusters.last());
        let lo = lemma_flatten_stretch(parts, p - before.len());
        assert(parts[p - before.len()].len() > 0);
        (clusters.len() - 1, lo)
    }
}

/// Rows that run together without repeats share no node.
proof fn lemma_flatten_apart(rows: Seq<Seq<u32>>)
    requires
        rows.flatten().no_duplicates(),
    ensures
        apart(rows),
    decreases rows.len(),
{
    if rows.len() > 0 {
        let front = rows.drop_last();
        let last = rows.last();
        assert(front.push(last) =~= rows);
        front.lemma_flatten_push(last);
        let flat = front.flatten();
        let all = flat + last;
        assert forall|i: int, j: int| 0 <= i < flat.len() && 0 <= j < flat.len() && i != j implies flat[i]
            != flat[j] by {
            assert(all[i] != all[j]);
        }
        lemma_flatten_apart(front);
        assert forall|c: int| 0 <= c < rows.len() implies (#[trigger] rows[c]).no_duplicates() by {
            if c < front.len() {
                assert(front[c].no_duplicates());
                assert(front[c] == rows[c]);
            } else {
                assert forall|i: int, j: int|
                    0 <= i < last.len() && 0 <= j < last.len() && i != j implies last[i]
                    != last[j] by {
                    assert(all[flat.len() + i] != all[flat.len() + j]);
                }
            }
        }
        assert forall|c: int, d: int, node: u32| 0 <= c < d < rows.len() implies !(
        #[trigger] rows[c].contains(node) && #[trigger] rows[d].contains(node)) by {
            if rows[c].contains(node) && rows[d].contains(node) {
                assert(front[c] == rows[c]);
                if d < front.len() {
                    assert(front[d] == rows[d]);
                    assert(!(front[c].contains(node) && front[d].contains(node)));
                } else {
                    lemma_flatten_holds(front, c, node);
                    let i = choose|i: int| 0 <= i < flat.len() && flat[i] == node;
                    let j = choose|j: int| 0 <= j < last.len() && last[j] == node;
                    assert(all[i] == all[flat.len() + j]);
                }
            }
        }
    }
}

/// The rows are stretches of the lists.
spec fn stretches(rows: Seq<Seq<u32>>, lists: Seq<Seq<u32>>) -> bool {
    forall|p: int|
        0 <= p < rows.len() ==> (#[trigger] rows[p]).len() > 0 && cut_from(rows[p], lists)
}

proof fn lemma_rows_placed(order: Seq<u32>, rows: Seq<Seq<u32>>, lists: Seq<Seq<u32>>)
    requires
        order.no_duplicates(),
        rows.flatten() == lists.flatten(),
        rows.flatten().no_duplicates(),
        stretches(rows, lists),
        forall|d: int, i: int|
            0 <= d < lists.len() && 0 <= i < lists[d].len() ==> order.contains(
                #[trigger] lists[d][i],
            ),
    ensures
        tidy(placed(order, rows), order.len() as int),
        refines(placed(order, rows), placed(order, lists)),
{
    let parts = placed(order, rows);
    let groups = placed(order, lists);
    lemma_flatten_apart(rows);
    assert forall|p: int| 0 <= p < parts.len() implies cut_from(#[trigger] parts[p], groups) by {
        assert(rows[p].len() > 0);
        let (d, lo) = choose|d: int, lo: int|
            0 <= d < lists.len() && #[trigger] is_stretch(rows[p], lists[d], lo);
        assert forall|i: int| 0 <= i < parts[p].len() implies #[trigger] parts[p][i] == groups[d][lo
            + i] by {
            assert(rows[p][i] == lists[d][lo + i]);
        }
        assert(parts[p] =~= groups[d].subrange(lo, lo + parts[p].len()));
        assert(is_stretch(parts[p], groups[d], lo));
    }
    assert forall|c: int, v: int| #[trigger] in_cluster(parts, c, v) implies 0 <= v < order.len()
        && rows[c].contains(order[v]) by {
        let i = choose|i: int| 0 <= i < parts[c].len() && parts[c][i] == v;
        assert(rows[c].len() > 0);
        let (d, lo) = choose|d: int, lo: int|
            0 <= d < lists.len() && #[trigger] is_stretch(rows[c], lists[d], lo);
        assert(rows[c][i] == lists[d][lo + i]);
        assert(order.contains(lists[d][lo + i]));
        assert(order[v] == rows[c][i]);
    }
    assert forall|c: int, d: int, v: int| #[trigger] in_cluster(parts, c, v)
        && #[trigger] in_cluster(parts, d, v) implies c == d by {
        assert(rows[c].contains(order[v]));
        assert(rows[d].contains(order[v]));
    }
    assert forall|c: int| 0 <= c < parts.len() implies (#[trigger] parts[c]).len() > 0 by {
        assert(rows[c].len() > 0);
    }
    assert forall|d: int, v: int| #[trigger] in_cluster(groups, d, v) implies exists|p: int|
        in_cluster(parts, p, v) by {
        let k = choose|k: int| 0 <= k < groups[d].len() && groups[d][k] == v;
        let node = lists[d][k];
        assert(lists[d].contains(node));
        lemma_flatten_holds(lists, d, node);
        lemma_flatten_from(rows, node);
        let p = choose|p: int| 0 <= p < rows.len() && (#[trigger] rows[p]).contains(node);
        let i = choose|i: int| 0 <= i < rows[p].len() && rows[p][i] == node;
        assert(parts[p][i] == v);
        assert(in_cluster(parts, p, v));
    }
}

proof fn lemma_layers_placed(
    ir: IrState,
    ends: Set<u32>,
    span: Option<nat>,
    order: Seq<u32>,
    whole: Seq<Seq<u32>>,
)
    requires
        span matches Some(span) ==> span > 0,
        order.no_duplicates(),
        tidy(placed(order, whole), order.len() as int),
        layered(ir, whole, ends, span).flatten().no_duplicates(),
        forall|d: int, i: int|
            0 <= d < whole.len() && 0 <= i < whole[d].len() ==> order.contains(
                #[trigger] whole[d][i],
            ),
    ensures
        tidy(placed(order, layered(ir, whole, ends, span)), order.len() as int),
        refines(placed(order, layered(ir, whole, ends, span)), placed(order, whole)),
{
    let rows = layered(ir, whole, ends, span);
    match span {
        Some(span) => {
            lemma_split_flatten(ir, ends, span, whole);
            assert forall|p: int| 0 <= p < rows.len() implies (#[trigger] rows[p]).len() > 0
                && cut_from(rows[p], whole) by {
                let (d, lo) = lemma_split_stretch(ir, ends, span, whole, p);
                assert(is_stretch(rows[p], whole[d], lo));
            }
        },
        None => {
            assert forall|p: int| 0 <= p < rows.len() implies (#[trigger] rows[p]).len() > 0
                && cut_from(rows[p], whole) by {
                assert(placed(order, whole)[p].len() > 0);
                assert(whole[p] =~= whole[p].subrange(0, whole[p].len() as int));
                assert(is_stretch(rows[p], whole[p], 0));
            }
        },
    }
    lemma_rows_placed(order, rows, whole);
}

/// What holds of the claimed groups, as positions: they are parts of the groups before splitting.
proof fn lemma_claims_placed(
    shot: Shot,
    order: Seq<u32>,
    claims: Seq<ClaimFacts>,
    query: CapabilityQuery,
    entry: Option<Result<Seq<Seq<char>>, Seq<char>>>,
)
    requires
        linked(shot.ir),
        ir_order(shot.ir, order),
    ensures
        tidy(
            placed(order, claims_model(shot, order, claims, query, entry).clusters),
            order.len() as int,
        ),
        refines(
            placed(order, claims_model(shot, order, claims, query, entry).clusters),
            placed(order, whole_clusters(shot, order, claims, query.in_cf_body)),
        ),
{
    let ends = layer_values(shot, order, query.in_cf_body, entry);
    let span = partition_span(text_view(query.layer_partitions), ends.len());
    let whole = whole_clusters(shot, order, claims, query.in_cf_body);
    law_span_positive(text_view(query.layer_partitions), ends.len());
    lemma_whole_fit(shot, order, claims, query.in_cf_body);
    law_nodes_claimed_once(shot, order, claims, query, entry);
    lemma_layers_placed(shot.ir, ends, span, order, whole);
}

/// A stretch of an ascending group that is closed under paths is closed too.
proof fn lemma_stretch_closed(adj: Seq<Seq<int>>, part: Seq<int>, group: Seq<int>, lo: int)
    requires
        forall|u: int, v: int| #[trigger] edges_of(adj).contains((u, v)) ==> u < v,
        is_stretch(part, group, lo),
        closed_under_paths(edges_of(adj), group),
        forall|i: int, j: int| 0 <= i < j < group.len() ==> #[trigger] group[i] < #[trigger] group[j],
    ensures
        closed_under_paths(edges_of(adj), part),
{
    let edges = edges_of(adj);
    assert forall|a: int, w: int, b: int| #[trigger] reaches(edges, a, w) && #[trigger] reaches(
        edges,
        w,
        b,
    ) && part.contains(a) && part.contains(b) implies part.contains(w) by {
        let i = choose|i: int| 0 <= i < part.len() && part[i] == a;
        let j = choose|j: int| 0 <= j < part.len() && part[j] == b;
        assert(group[lo + i] == a);
        assert(group[lo + j] == b);
        assert(group.contains(w));
        let k = choose|k: int| 0 <= k < group.len() && group[k] == w;
        lemma_forward(edges_of(adj), a, w);
        lemma_forward(edges_of(adj), w, b);
        assert(lo + i <= k <= lo + j);
        assert(part[k - lo] == w);
    }
}

/// No node outside a claimed group lies on a path between two of its nodes, where readers follow.
/// Positions are those in the topological order.
pub proof fn law_claims_convex(
    shot: Shot,
    order: Seq<u32>,
    claims: Seq<ClaimFacts>,
    query: CapabilityQuery,
    entry: Option<Result<Seq<Seq<char>>, Seq<char>>>,
    c: int,
)
    requires
        linked(shot.ir),
        ir_order(shot.ir, order),
        readers_follow(shot.ir, order),
        0 <= c < claims_model(shot, order, claims, query, entry).clusters.len(),
    ensures
        closed_under_paths(
            edges_of(forward_rows(shot.ir, order)),
            placed(order, claims_model(shot, order, claims, query, entry).clusters)[c],
        ),
{
    let adj = forward_rows(shot.ir, order);
    let groups = placed(order, whole_clusters(shot, order, claims, query.in_cf_body));
    let parts = placed(order, claims_model(shot, order, claims, query, entry).clusters);
    lemma_whole_fit(shot, order, claims, query.in_cf_body);
    lemma_claims_placed(shot, order, claims, query, entry);
    let (d, lo) = choose|d: int, lo: int|
        0 <= d < groups.len() && #[trigger] is_stretch(parts[c], groups[d], lo);
    let group = groups[d];
    assert(closed_under_paths(edges_of(adj), groups[d]));
    assert forall|i: int, j: int| 0 <= i < j < group.len() implies #[trigger] group[i]
        < #[trigger] group[j] by {
        assert(groups[d][i] < groups[d][j]);
    }
    lemma_stretch_closed(adj, parts[c], group, lo);
}

/// Fusing all claimed groups at once leaves the graph without cycles, where readers follow.
pub proof fn law_claims_fuse(
    shot: Shot,
    order: Seq<u32>,
    claims: Seq<ClaimFacts>,
    query: CapabilityQuery,
    entry: Option<Result<Seq<Seq<char>>, Seq<char>>>,
)
    requires
        linked(shot.ir),
        ir_order(shot.ir, order),
        readers_follow(shot.ir, order),
    ensures
        acyclic(
            quotient(
                edges_of(forward_rows(shot.ir, order)),
                placed(order, claims_model(shot, order, claims, query, entry).clusters),
            ),
        ),
{
    lemma_whole_fit(shot, order, claims, query.in_cf_body);
    lemma_claims_placed(shot, order, claims, query, entry);
    lemma_cut_acyclic(
        edges_of(forward_rows(shot.ir, order)),
        placed(order, claims_model(shot, order, claims, query, entry).clusters),
        placed(order, whole_clusters(shot, order, claims, query.in_cf_body)),
        order.len() as int,
    );
}

/// The nodes of a claimed group agree in whether they work on 64-bit floating-point tensors, and
/// in a decoder also in how they may be compiled.
pub proof fn law_claims_uniform(
    shot: Shot,
    order: Seq<u32>,
    claims: Seq<ClaimFacts>,
    query: CapabilityQuery,
    entry: Option<Result<Seq<Seq<char>>, Seq<char>>>,
    c: int,
    a: int,
    b: int,
)
    requires
        linked(shot.ir),
        ir_order(shot.ir, order),
        in_cluster(
            placed(order, claims_model(shot, order, claims, query, entry).clusters),
            c,
            a,
        ),
        in_cluster(
            placed(order, claims_model(shot, order, claims, query, entry).clusters),
            c,
            b,
        ),
    ensures
        double_flags(shot, order)[a] == double_flags(shot, order)[b],
        class_flags(shot, order, claims)[a] == class_flags(shot, order, claims)[b],
{
    let groups = placed(order, whole_clusters(shot, order, claims, query.in_cf_body));
    let parts = placed(order, claims_model(shot, order, claims, query, entry).clusters);
    lemma_whole_fit(shot, order, claims, query.in_cf_body);
    lemma_claims_placed(shot, order, claims, query, entry);
    let (d, lo) = choose|d: int, lo: int|
        0 <= d < groups.len() && #[trigger] is_stretch(parts[c], groups[d], lo);
    let i = choose|i: int| 0 <= i < parts[c].len() && parts[c][i] == a;
    let j = choose|j: int| 0 <= j < parts[c].len() && parts[c][j] == b;
    assert(groups[d][lo + i] == a);
    assert(groups[d][lo + j] == b);
    assert(in_cluster(groups, d, a));
    assert(in_cluster(groups, d, b));
}

} // verus!
