//! What holds of every set of claims.

use vstd::prelude::*;

use crate::capability::{
    claims_model, colours_of, is_mixed_vision, lemma_total_split, lemma_whole_clusters,
    supported_flags, text_view, whole_clusters, CapabilityQuery,
};
use crate::cluster::edge_clusters;
use crate::cluster_laws::law_clusters_partition_supported;
use crate::digraph::in_range;
use crate::ir::IrState;
use crate::partition::{
    cut_parts, law_runs, law_split_keeps_nodes, row_lengths, runs, split_clusters,
};
use crate::quotient::in_cluster;
use crate::rejection::ClaimFacts;
use crate::snapshot::Shot;
use crate::span::{law_span_positive, partition_span};
use crate::topology::{backward_rows, forward_rows, is_listing, lemma_rows, linked};

verus! {

/// Some cluster holds the node.
pub open spec fn held(clusters: Seq<Seq<u32>>, node: u32) -> bool {
    exists|c: int| 0 <= c < clusters.len() && (#[trigger] clusters[c]).contains(node)
}

/// The node is listed and can run here.
pub open spec fn listed_supported(order: Seq<u32>, supported: Seq<bool>, node: u32) -> bool {
    exists|i: int| 0 <= i < order.len() && #[trigger] order[i] == node && supported[i]
}

pub proof fn lemma_flatten_holds(parts: Seq<Seq<u32>>, p: int, node: u32)
    requires
        0 <= p < parts.len(),
        parts[p].contains(node),
    ensures
        parts.flatten().contains(node),
    decreases parts.len(),
{
    let front = parts.drop_last();
    assert(front.push(parts.last()) =~= parts);
    front.lemma_flatten_push(parts.last());
    let flat = front.flatten();
    if p < parts.len() - 1 {
        assert(front[p] == parts[p]);
        lemma_flatten_holds(front, p, node);
        let i = choose|i: int| 0 <= i < flat.len() && flat[i] == node;
        assert((flat + parts.last())[i] == node);
    } else {
        let i = choose|i: int| 0 <= i < parts.last().len() && parts.last()[i] == node;
        assert((flat + parts.last())[flat.len() + i] == node);
    }
}

proof fn lemma_split_holds(
    ir: IrState,
    ends: Set<u32>,
    span: nat,
    clusters: Seq<Seq<u32>>,
    node: u32,
)
    requires
        span > 0,
        held(split_clusters(ir, ends, span, clusters), node),
    ensures
        held(clusters, node),
    decreases clusters.len(),
{
    if clusters.len() > 0 {
        let front = clusters.drop_last();
        let before = split_clusters(ir, ends, span, front);
        let parts = cut_parts(ir, ends, span, clusters.last());
        let all = before + parts;
        let c = choose|c: int| 0 <= c < all.len() && (#[trigger] all[c]).contains(node);
        if c < before.len() {
            assert(before[c].contains(node));
            lemma_split_holds(ir, ends, span, front, node);
            let d = choose|d: int| 0 <= d < front.len() && (#[trigger] front[d]).contains(node);
            assert(clusters[d].contains(node));
        } else {
            assert(parts[c - before.len()] == all[c]);
            lemma_flatten_holds(parts, c - before.len(), node);
            law_split_keeps_nodes(ir, ends, span, clusters.last());
            assert(clusters[clusters.len() - 1].contains(node));
        }
    }
}

proof fn lemma_whole_supported(
    shot: Shot,
    order: Seq<u32>,
    claims: Seq<ClaimFacts>,
    in_body: bool,
    node: u32,
)
    requires
        linked(shot.ir),
        is_listing(shot.ir, order),
        held(whole_clusters(shot, order, claims, in_body), node),
    ensures
        listed_supported(order, supported_flags(shot, order, claims, in_body), node),
{
    let colours = colours_of(shot, order, claims, in_body);
    let all = whole_clusters(shot, order, claims, in_body);
    let c = choose|c: int| 0 <= c < all.len() && (#[trigger] all[c]).contains(node);
    let i = choose|i: int| 0 <= i < all[c].len() && all[c][i] == node;
    if is_mixed_vision(shot, order, claims) {
        law_runs(colours, 0);
        let range = runs(colours, 0)[c];
        assert(all[c] == order.subrange(range.0, range.1));
        assert(order[range.0 + i] == node);
        assert(colours.supported[range.0 + i]);
    } else {
        let adj = forward_rows(shot.ir, order);
        let degree = row_lengths(backward_rows(shot.ir, order));
        let groups = edge_clusters(colours, adj, degree);
        lemma_rows(shot.ir, order);
        assert(in_range(adj)) by {
            assert forall|a: int, i: int|
                0 <= a < adj.len() && 0 <= i < adj[a].len() implies 0 <= #[trigger] adj[a][i]
                < adj.len() by {
                assert(adj[a].contains(adj[a][i]));
            }
        }
        law_clusters_partition_supported(colours, adj, degree);
        assert(all[c][i] == order[groups[c][i]]);
        assert(in_cluster(groups, c, groups[c][i]));
        assert(order[groups[c][i]] == node);
    }
}

/// Only nodes that can run here are claimed, and no more nodes than the graph lists.
pub proof fn law_claims_supported(
    shot: Shot,
    order: Seq<u32>,
    claims: Seq<ClaimFacts>,
    query: CapabilityQuery,
    entry: Option<Result<Seq<Seq<char>>, Seq<char>>>,
)
    requires
        linked(shot.ir),
        is_listing(shot.ir, order),
    ensures
        claims_model(shot, order, claims, query, entry).claimed <= order.len(),
        forall|node: u32| #[trigger]
            held(claims_model(shot, order, claims, query, entry).clusters, node)
                ==> listed_supported(
                order,
                supported_flags(shot, order, claims, query.in_cf_body),
                node,
            ),
{
    let ends = crate::capability::layer_values(shot, order, query.in_cf_body, entry);
    let span = partition_span(text_view(query.layer_partitions), ends.len());
    let whole = whole_clusters(shot, order, claims, query.in_cf_body);
    law_span_positive(text_view(query.layer_partitions), ends.len());
    lemma_whole_clusters(shot, order, claims, query.in_cf_body);
    match span {
        Some(span) => {
            lemma_total_split(shot.ir, ends, span, whole);
        },
        None => {},
    }
    assert forall|node: u32| #[trigger]
        held(claims_model(shot, order, claims, query, entry).clusters, node) implies listed_supported(
        order,
        supported_flags(shot, order, claims, query.in_cf_body),
        node,
    ) by {
        match span {
            Some(span) => {
                lemma_split_holds(shot.ir, ends, span, whole, node);
            },
            None => {},
        }
        lemma_whole_supported(shot, order, claims, query.in_cf_body, node);
    }
}

pub proof fn lemma_flatten_from(parts: Seq<Seq<u32>>, node: u32)
    requires
        parts.flatten().contains(node),
    ensures
        held(parts, node),
    decreases parts.len(),
{
    if parts.len() > 0 {
        let front = parts.drop_last();
        assert(front.push(parts.last()) =~= parts);
        front.lemma_flatten_push(parts.last());
        let flat = front.flatten();
        let all = flat + parts.last();
        let i = choose|i: int| 0 <= i < all.len() && all[i] == node;
        if i < flat.len() {
            assert(flat[i] == node);
            lemma_flatten_from(front, node);
            let c = choose|c: int| 0 <= c < front.len() && (#[trigger] front[c]).contains(node);
            assert(parts[c].contains(node));
        } else {
            assert(parts.last()[i - flat.len()] == node);
            assert(parts[parts.len() - 1].contains(node));
        }
    }
}

pub proof fn lemma_split_flatten(ir: IrState, ends: Set<u32>, span: nat, clusters: Seq<Seq<u32>>)
    requires
        span > 0,
    ensures
        split_clusters(ir, ends, span, clusters).flatten() == clusters.flatten(),
    decreases clusters.len(),
{
    if clusters.len() > 0 {
        let front = clusters.drop_last();
        lemma_split_flatten(ir, ends, span, front);
        law_split_keeps_nodes(ir, ends, span, clusters.last());
        vstd::seq_lib::lemma_flatten_concat(
            split_clusters(ir, ends, span, front),
            cut_parts(ir, ends, span, clusters.last()),
        );
        front.lemma_flatten_push(clusters.last());
        assert(front.push(clusters.last()) =~= clusters);
    }
}

/// Each row lists distinct nodes, and no two rows share one.
pub open spec fn apart(rows: Seq<Seq<u32>>) -> bool {
    &&& forall|c: int| 0 <= c < rows.len() ==> (#[trigger] rows[c]).no_duplicates()
    &&& forall|c: int, d: int, node: u32|
        0 <= c < d < rows.len() ==> !(#[trigger] rows[c].contains(node)
            && #[trigger] rows[d].contains(node))
}

proof fn lemma_flatten_distinct(rows: Seq<Seq<u32>>)
    requires
        apart(rows),
    ensures
        rows.flatten().no_duplicates(),
    decreases rows.len(),
{
    if rows.len() > 0 {
        let front = rows.drop_last();
        assert(apart(front)) by {
            assert forall|c: int| 0 <= c < front.len() implies (
            #[trigger] front[c]).no_duplicates() by {
                assert(rows[c].no_duplicates());
            }
            assert forall|c: int, d: int, node: u32| 0 <= c < d < front.len() implies !(
            #[trigger] front[c].contains(node) && #[trigger] front[d].contains(node)) by {
                assert(front[c] == rows[c] && front[d] == rows[d]);
                assert(!(rows[c].contains(node) && rows[d].contains(node)));
            }
        }
        lemma_flatten_distinct(front);
        assert(front.push(rows.last()) =~= rows);
        front.lemma_flatten_push(rows.last());
        let flat = front.flatten();
        let all = flat + rows.last();
        let end = rows.len() - 1;
        assert(rows[end].no_duplicates());
        assert forall|i: int, j: int| 0 <= i < all.len() && 0 <= j < all.len() && i != j implies all[i]
            != all[j] by {
            let (lo, hi) = if i < j {
                (i, j)
            } else {
                (j, i)
            };
            if lo < flat.len() && hi >= flat.len() && all[i] == all[j] {
                let node = all[lo];
                assert(flat[lo] == node);
                lemma_flatten_from(front, node);
                let c = choose|c: int| 0 <= c < front.len() && (#[trigger] front[c]).contains(node);
                assert(rows[c].contains(node));
                assert(rows[end][hi - flat.len()] == node);
                assert(rows[end].contains(node));
            }
        }
    }
}

proof fn lemma_whole_apart(
    shot: Shot,
    order: Seq<u32>,
    claims: Seq<ClaimFacts>,
    in_body: bool,
)
    requires
        linked(shot.ir),
        is_listing(shot.ir, order),
    ensures
        apart(whole_clusters(shot, order, claims, in_body)),
{
    let colours = colours_of(shot, order, claims, in_body);
    let all = whole_clusters(shot, order, claims, in_body);
    if is_mixed_vision(shot, order, claims) {
        law_runs(colours, 0);
        let ranges = runs(colours, 0);
        assert forall|c: int| 0 <= c < all.len() implies (#[trigger] all[c]).no_duplicates() by {
            assert(ranges[c].1 <= order.len());
            assert(all[c] == order.subrange(ranges[c].0, ranges[c].1));
        }
        assert forall|c: int, d: int, node: u32| 0 <= c < d < all.len() implies !(
        #[trigger] all[c].contains(node) && #[trigger] all[d].contains(node)) by {
            if all[c].contains(node) && all[d].contains(node) {
                assert(all[c] == order.subrange(ranges[c].0, ranges[c].1));
                assert(all[d] == order.subrange(ranges[d].0, ranges[d].1));
                let i = choose|i: int| 0 <= i < all[c].len() && all[c][i] == node;
                let j = choose|j: int| 0 <= j < all[d].len() && all[d][j] == node;
                assert(ranges[c].1 <= ranges[d].0);
                assert(order[ranges[c].0 + i] == order[ranges[d].0 + j]);
            }
        }
    } else {
        let adj = forward_rows(shot.ir, order);
        let degree = row_lengths(backward_rows(shot.ir, order));
        let groups = edge_clusters(colours, adj, degree);
        lemma_rows(shot.ir, order);
        assert(in_range(adj)) by {
            assert forall|a: int, i: int|
                0 <= a < adj.len() && 0 <= i < adj[a].len() implies 0 <= #[trigger] adj[a][i]
                < adj.len() by {
                assert(adj[a].contains(adj[a][i]));
            }
        }
        law_clusters_partition_supported(colours, adj, degree);
        assert forall|c: int| 0 <= c < all.len() implies (#[trigger] all[c]).no_duplicates() by {
            assert forall|i: int, j: int|
                0 <= i < all[c].len() && 0 <= j < all[c].len() && i != j implies all[c][i]
                != all[c][j] by {
                assert(all[c][i] == order[groups[c][i]]);
                assert(all[c][j] == order[groups[c][j]]);
                assert(in_cluster(groups, c, groups[c][i]));
                assert(in_cluster(groups, c, groups[c][j]));
                assert(groups[c][i] != groups[c][j]);
            }
        }
        assert forall|c: int, d: int, node: u32| 0 <= c < d < all.len() implies !(
        #[trigger] all[c].contains(node) && #[trigger] all[d].contains(node)) by {
            if all[c].contains(node) && all[d].contains(node) {
                let i = choose|i: int| 0 <= i < all[c].len() && all[c][i] == node;
                let j = choose|j: int| 0 <= j < all[d].len() && all[d][j] == node;
                assert(all[c][i] == order[groups[c][i]]);
                assert(all[d][j] == order[groups[d][j]]);
                assert(in_cluster(groups, c, groups[c][i]));
                assert(in_cluster(groups, d, groups[d][j]));
                assert(groups[c][i] == groups[d][j]);
            }
        }
    }
}

/// No node is claimed twice.
pub proof fn law_nodes_claimed_once(
    shot: Shot,
    order: Seq<u32>,
    claims: Seq<ClaimFacts>,
    query: CapabilityQuery,
    entry: Option<Result<Seq<Seq<char>>, Seq<char>>>,
)
    requires
        linked(shot.ir),
        is_listing(shot.ir, order),
    ensures
        claims_model(shot, order, claims, query, entry).clusters.flatten().no_duplicates(),
{
    let ends = crate::capability::layer_values(shot, order, query.in_cf_body, entry);
    let span = partition_span(text_view(query.layer_partitions), ends.len());
    let whole = whole_clusters(shot, order, claims, query.in_cf_body);
    law_span_positive(text_view(query.layer_partitions), ends.len());
    lemma_whole_apart(shot, order, claims, query.in_cf_body);
    lemma_flatten_distinct(whole);
    match span {
        Some(span) => {
            lemma_split_flatten(shot.ir, ends, span, whole);
        },
        None => {},
    }
}

/// Nothing inside the body of a control-flow node is claimed on its own.
pub proof fn law_body_declined(
    shot: Shot,
    order: Seq<u32>,
    claims: Seq<ClaimFacts>,
    query: CapabilityQuery,
    entry: Option<Result<Seq<Seq<char>>, Seq<char>>>,
)
    requires
        linked(shot.ir),
        is_listing(shot.ir, order),
        query.in_cf_body,
    ensures
        forall|node: u32|
            !#[trigger] held(claims_model(shot, order, claims, query, entry).clusters, node),
        whole_clusters(shot, order, claims, true).len() == 0,
        claims_model(shot, order, claims, query, entry).clusters.len() == 0,
        claims_model(shot, order, claims, query, entry).claimed == 0,
{
    law_claims_supported(shot, order, claims, query, entry);
    let whole = whole_clusters(shot, order, claims, true);
    let colours = colours_of(shot, order, claims, true);
    if whole.len() > 0 {
        assert(whole[0].len() > 0) by {
            if is_mixed_vision(shot, order, claims) {
                law_runs(colours, 0);
                let range = runs(colours, 0)[0];
                assert(whole[0] == order.subrange(range.0, range.1));
            } else {
                let adj = forward_rows(shot.ir, order);
                let degree = row_lengths(backward_rows(shot.ir, order));
                lemma_rows(shot.ir, order);
                assert(in_range(adj)) by {
                    assert forall|a: int, i: int|
                        0 <= a < adj.len() && 0 <= i < adj[a].len() implies 0 <= #[trigger] adj[a][i]
                        < adj.len() by {
                        assert(adj[a].contains(adj[a][i]));
                    }
                }
                law_clusters_partition_supported(colours, adj, degree);
                let groups = edge_clusters(colours, adj, degree);
                assert(groups[0].len() > 0);
                assert(whole[0].len() == groups[0].len());
            }
        }
        let node = whole[0][0];
        assert(whole[0].contains(node));
        assert(held(whole, node));
        lemma_whole_supported(shot, order, claims, true, node);
    }
}

} // verus!
