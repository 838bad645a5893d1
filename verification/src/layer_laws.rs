//! Where decoder layers end and how groups of nodes are split there, told by the nodes themselves.

use vstd::prelude::*;

use crate::boundary::edges_into;
use crate::capability::{
    claims_model, layer_anchors, layer_values, text_view, whole_clusters, CapabilityQuery,
};
use crate::capability_laws::lemma_split_flatten;
use crate::digraph::reaches;
use crate::graph_laws::lemma_present;
use crate::grouping::{lemma_select, select};
use crate::inspect_laws::anchors;
use crate::ir::{ir_read_by, IrState};
use crate::partition::{
    cut_parts, ends_layer, law_split_keeps_nodes, layer_ends, layers_found, node_ends_layer,
    skeleton_of, split_clusters,
};
use crate::quotient::{blocked, break_cycles, is_victim};
use crate::rejection::ClaimFacts;
use crate::snapshot::{present, Shot};
use crate::snapshot_laws::{law_mirror_links, mirrors};
use crate::span::{law_span_positive, partition_span};
use crate::topology::{
    backward_rows, forward_rows, id_ints, is_listing, lemma_rows, linked, located,
};

verus! {

/// An output slot of the one node holds the value that an input slot of the other holds.
pub open spec fn hands_to(shot: Shot, from: u32, to: u32) -> bool {
    exists|i: int, k: int|
        {
            &&& 0 <= i < shot.nodes[from as int].output_slots.len()
            &&& 0 <= k < shot.nodes[to as int].input_slots.len()
            &&& #[trigger] shot.nodes[from as int].output_slots[i] is Some
            &&& #[trigger] shot.nodes[to as int].input_slots[k]
                == shot.nodes[from as int].output_slots[i]
        }
}

/// The edges that groups are built on follow the slots: a node leads to exactly the nodes that it
/// hands a value to.
pub proof fn law_edges_follow_slots(shot: Shot, order: Seq<u32>, a: int, b: int)
    requires
        mirrors(shot),
        is_listing(shot.ir, order),
        0 <= a < order.len(),
        0 <= b < order.len(),
    ensures
        forward_rows(shot.ir, order)[a].contains(b) <==> hands_to(shot, order[a], order[b]),
{
    law_mirror_links(shot);
    lemma_rows(shot.ir, order);
    let ir = shot.ir;
    let (p, n) = (order[a] as int, order[b] as int);
    assert(order[a] < ir.nodes.len() && order[b] < ir.nodes.len());
    assert(ir.nodes[p].outputs == present(shot.nodes[p].output_slots));
    if ir_read_by(ir, p, n) {
        let (i, slot) = choose|i: int, slot: u32|
            0 <= i < ir.nodes[p].outputs.len() && #[trigger] ir.nodes[p].outputs[i]
                < ir.values.len() && #[trigger] ir.values[ir.nodes[p].outputs[i] as int].uses.contains((n as u32, slot));
        let v = ir.nodes[p].outputs[i];
        assert(ir.values[v as int].uses.contains((n as u32, slot)));
        assert(shot.nodes[n].input_slots[slot as int] == Some(v));
        lemma_present(shot.nodes[p].output_slots, v);
        assert(present(shot.nodes[p].output_slots).contains(v));
        let k = choose|k: int|
            0 <= k < shot.nodes[p].output_slots.len() && #[trigger] shot.nodes[p].output_slots[k]
                == Some(v);
        assert(shot.nodes[order[a] as int].output_slots[k] is Some);
        assert(shot.nodes[order[b] as int].input_slots[slot as int]
            == shot.nodes[order[a] as int].output_slots[k]);
    }
    if hands_to(shot, order[a], order[b]) {
        let (i, k) = choose|i: int, k: int|
            {
                &&& 0 <= i < shot.nodes[p].output_slots.len()
                &&& 0 <= k < shot.nodes[n].input_slots.len()
                &&& #[trigger] shot.nodes[p].output_slots[i] is Some
                &&& #[trigger] shot.nodes[n].input_slots[k] == shot.nodes[p].output_slots[i]
            };
        let v = shot.nodes[p].output_slots[i]->0;
        lemma_present(shot.nodes[p].output_slots, v);
        assert(present(shot.nodes[p].output_slots).contains(v));
        let j = choose|j: int| 0 <= j < ir.nodes[p].outputs.len() && ir.nodes[p].outputs[j] == v;
        assert(ir.nodes[p].outputs[j] < ir.values.len());
        assert(shot.nodes[n].input_slots.len() <= u32::MAX);
        assert(ir.values[v as int].uses.contains((n as u32, k as u32)));
        assert(ir.values[ir.nodes[p].outputs[j] as int].uses.contains((n as u32, k as u32)));
    }
}

/// The node at that place is attention that anchors a layer.
pub open spec fn anchored(shot: Shot, order: Seq<u32>, i: int) -> bool {
    0 <= i < order.len() && anchors(shot.nodes[order[i] as int])
}

/// The places hold anchors, with none between them.
pub open spec fn neighbours(shot: Shot, order: Seq<u32>, p: int, q: int) -> bool {
    &&& anchored(shot, order, p)
    &&& anchored(shot, order, q)
    &&& p < q
    &&& forall|i: int| p < i < q ==> !#[trigger] anchored(shot, order, i)
}

/// An addition between two anchors that values lead to from the first without passing the second,
/// and that leads to the second without passing the first.
pub open spec fn closes(shot: Shot, order: Seq<u32>, p: int, q: int, index: int) -> bool {
    let forward = forward_rows(shot.ir, order);
    let backward = backward_rows(shot.ir, order);
    &&& p < index < q
    &&& shot.ir.nodes[order[index] as int].op_type == "Add"@
    &&& reaches(
        Set::new(
            |e: (int, int)|
                0 <= e.0 < order.len() && forward[e.0].contains(e.1) && 0 <= e.1 <= q,
        ),
        p,
        index,
    )
    &&& reaches(
        Set::new(
            |e: (int, int)|
                0 <= e.0 < order.len() && backward[e.0].contains(e.1) && p <= e.1
                    <= order.len() - 1,
        ),
        q,
        index,
    )
}

proof fn lemma_closes(shot: Shot, order: Seq<u32>, p: int, q: int, index: int)
    requires
        0 <= p < order.len(),
        0 <= q < order.len(),
    ensures
        skeleton_of(shot.ir, order).closes_layer(p, q, index) == closes(shot, order, p, q, index),
{
    let skeleton = skeleton_of(shot.ir, order);
    let forward = forward_rows(shot.ir, order);
    let backward = backward_rows(shot.ir, order);
    assert(edges_into(skeleton.successors, 0, q) =~= Set::new(
        |e: (int, int)| 0 <= e.0 < order.len() && forward[e.0].contains(e.1) && 0 <= e.1 <= q,
    ));
    assert(edges_into(skeleton.predecessors, p, skeleton.predecessors.len() - 1) =~= Set::new(
        |e: (int, int)|
            0 <= e.0 < order.len() && backward[e.0].contains(e.1) && p <= e.1 <= order.len() - 1,
    ));
}

proof fn lemma_anchor_places(shot: Shot, order: Seq<u32>, k: int)
    requires
        order.no_duplicates(),
        0 <= k <= order.len(),
    ensures
        located(id_ints(layer_anchors(shot, order.take(k))), order) == select(
            |i: int| anchored(shot, order, i),
            k,
        ),
    decreases k,
{
    reveal_strlit("");
    let keep = |i: int| anchored(shot, order, i);
    if k == 0 {
        assert(order.take(0) =~= Seq::empty());
        assert(id_ints(layer_anchors(shot, order.take(0))) =~= Seq::empty());
    } else {
        lemma_anchor_places(shot, order, k - 1);
        let now = order.take(k);
        assert(now.drop_last() =~= order.take(k - 1));
        assert(now.last() == order[k - 1]);
        let node = shot.nodes[order[k - 1] as int];
        assert(crate::capability::anchors_layer(node) == anchors(node)) by {
            if node.domain.len() == 0 {
                assert(node.domain =~= ""@);
            }
        }
        let before = layer_anchors(shot, order.take(k - 1));
        if anchors(node) {
            let ids = id_ints(before.push(order[k - 1]));
            assert(ids.drop_last() =~= id_ints(before));
            assert(ids.last() == order[k - 1] as int);
            assert(order.contains(order[k - 1]));
            let at = order.index_of(order[k - 1]);
            assert(order[at] == order[k - 1]);
            assert(at == k - 1);
        }
    }
}

/// Some addition closes the layer between the places.
pub open spec fn closable(shot: Shot, order: Seq<u32>, p: int, q: int) -> bool {
    exists|index: int| #[trigger] closes(shot, order, p, q, index)
}

/// The last addition that closes the layer between the places.
pub open spec fn closes_last(shot: Shot, order: Seq<u32>, p: int, q: int, index: int) -> bool {
    closes(shot, order, p, q, index) && forall|other: int| #[trigger]
        closes(shot, order, p, q, other) ==> other <= index
}

/// Without a metadata entry, layers end at the first outputs of the last closing additions between
/// neighbouring anchors, provided that there are two anchors at least and every two neighbours have
/// such an addition between them; nowhere otherwise, nor in the body of a control-flow node.
pub proof fn law_layers_inferred(shot: Shot, order: Seq<u32>, in_body: bool, value: u32)
    requires
        linked(shot.ir),
        is_listing(shot.ir, order),
    ensures
        layer_values(shot, order, in_body, None).contains(value) <==> {
            &&& !in_body
            &&& forall|p: int, q: int| #[trigger]
                neighbours(shot, order, p, q) ==> closable(shot, order, p, q)
            &&& exists|p: int, q: int, index: int|
                {
                    &&& #[trigger] neighbours(shot, order, p, q)
                    &&& #[trigger] closes_last(shot, order, p, q, index)
                    &&& shot.ir.nodes[order[index] as int].outputs.len() > 0
                    &&& shot.ir.nodes[order[index] as int].outputs[0] == value
                }
        },
{
    let n = order.len() as int;
    let keep = |i: int| anchored(shot, order, i);
    let places = select(keep, n);
    lemma_select(keep, n);
    assert(order.take(n) =~= order);
    lemma_anchor_places(shot, order, n);
    let skeleton = skeleton_of(shot.ir, order);
    let found = layers_found(skeleton, places);
    assert forall|i: int| 0 <= i < places.len() - 1 implies neighbours(
        shot,
        order,
        #[trigger] places[i],
        places[i + 1],
    ) by {
        assert(places.contains(places[i]));
        assert(places.contains(places[i + 1]));
        assert forall|j: int| places[i] < j < places[i + 1] implies !#[trigger] anchored(
            shot,
            order,
            j,
        ) by {
            if anchored(shot, order, j) {
                assert(keep(j));
                assert(places.contains(j));
                let x = choose|x: int| 0 <= x < places.len() && places[x] == j;
                if x <= i {
                    if x < i {
                        assert(places[x] < places[i]);
                    }
                } else if x > i + 1 {
                    assert(places[i + 1] < places[x]);
                }
            }
        }
    }
    assert forall|p: int, q: int| #[trigger] neighbours(shot, order, p, q) implies exists|i: int|
        0 <= i < places.len() - 1 && #[trigger] places[i] == p && places[i + 1] == q by {
        assert(keep(p) && keep(q));
        assert(places.contains(p) && places.contains(q));
        let i = choose|i: int| 0 <= i < places.len() && places[i] == p;
        let j = choose|j: int| 0 <= j < places.len() && places[j] == q;
        if j < i {
            assert(places[j] < places[i]);
        }
        if i + 1 < j {
            assert(places[i] < places[i + 1]);
            assert(places[i + 1] < places[j]);
            assert(places.contains(places[i + 1]));
            assert(anchored(shot, order, places[i + 1]));
        }
        assert(places[i] == p && places[i + 1] == q);
    }
    assert forall|p: int, q: int| #[trigger] neighbours(shot, order, p, q) implies
        skeleton.has_boundary(p, q) == closable(shot, order, p, q) && forall|index: int|
        skeleton.is_boundary(p, q, index) == #[trigger] closes_last(shot, order, p, q, index) by {
        lemma_boundaries(shot, order, p, q);
    }
    if layer_values(shot, order, in_body, None).contains(value) {
        assert(found);
        assert(ends_layer(shot.ir, order, places, value));
        let (i, index) = choose|i: int, index: int|
            0 <= i < places.len() - 1 && 0 <= index < order.len() && #[trigger] skeleton_of(
                shot.ir,
                order,
            ).is_boundary(#[trigger] places[i], places[i + 1], index)
                && shot.ir.nodes[order[index] as int].outputs.len() > 0
                && shot.ir.nodes[order[index] as int].outputs[0] == value;
        assert(neighbours(shot, order, places[i], places[i + 1]));
        assert(closes_last(shot, order, places[i], places[i + 1], index));
        assert forall|p: int, q: int| #[trigger]
            neighbours(shot, order, p, q) implies closable(shot, order, p, q) by {
            let x = choose|x: int|
                0 <= x < places.len() - 1 && #[trigger] places[x] == p && places[x + 1] == q;
            assert(skeleton.has_boundary(places[x], places[x + 1]));
        }
    }
    if !in_body && (forall|p: int, q: int| #[trigger]
        neighbours(shot, order, p, q) ==> closable(shot, order, p, q)) && exists|
        p: int,
        q: int,
        index: int,
    |
        {
            &&& #[trigger] neighbours(shot, order, p, q)
            &&& #[trigger] closes_last(shot, order, p, q, index)
            &&& shot.ir.nodes[order[index] as int].outputs.len() > 0
            &&& shot.ir.nodes[order[index] as int].outputs[0] == value
        } {
        let (p, q, index) = choose|p: int, q: int, index: int|
            {
                &&& #[trigger] neighbours(shot, order, p, q)
                &&& #[trigger] closes_last(shot, order, p, q, index)
                &&& shot.ir.nodes[order[index] as int].outputs.len() > 0
                &&& shot.ir.nodes[order[index] as int].outputs[0] == value
            };
        let x = choose|x: int|
            0 <= x < places.len() - 1 && #[trigger] places[x] == p && places[x + 1] == q;
        assert(skeleton.is_boundary(places[x], places[x + 1], index));
        assert forall|i: int| 0 <= i < places.len() - 1 implies skeleton.has_boundary(
            #[trigger] places[i],
            places[i + 1],
        ) by {
            assert(neighbours(shot, order, places[i], places[i + 1]));
            assert(closable(shot, order, places[i], places[i + 1]));
        }
        assert(found);
        assert(ends_layer(shot.ir, order, places, value));
    }
}

proof fn lemma_boundaries(shot: Shot, order: Seq<u32>, p: int, q: int)
    requires
        0 <= p < order.len(),
        0 <= q < order.len(),
    ensures
        skeleton_of(shot.ir, order).has_boundary(p, q) == closable(shot, order, p, q),
        forall|index: int|
            skeleton_of(shot.ir, order).is_boundary(p, q, index) == #[trigger] closes_last(
                shot,
                order,
                p,
                q,
                index,
            ),
{
    let skeleton = skeleton_of(shot.ir, order);
    assert forall|index: int| skeleton.closes_layer(p, q, index) == #[trigger] closes(
        shot,
        order,
        p,
        q,
        index,
    ) by {
        lemma_closes(shot, order, p, q, index);
    }
    assert forall|index: int| #[trigger] skeleton.closes_layer(p, q, index) == closes(
        shot,
        order,
        p,
        q,
        index,
    ) by {
        lemma_closes(shot, order, p, q, index);
    }
    if skeleton.has_boundary(p, q) {
        let index = choose|index: int| skeleton.closes_layer(p, q, index);
        assert(closes(shot, order, p, q, index));
    }
    if closable(shot, order, p, q) {
        let index = choose|index: int| #[trigger] closes(shot, order, p, q, index);
        assert(skeleton.closes_layer(p, q, index));
    }
}

/// A metadata entry that lists names makes layers end at the values of these names that some node
/// produces; one that cannot be read makes them end nowhere, and neither counts in the body of a
/// control-flow node.
pub proof fn law_layers_named(
    shot: Shot,
    order: Seq<u32>,
    in_body: bool,
    names: Seq<Seq<char>>,
    error: Seq<char>,
    value: u32,
)
    ensures
        layer_values(shot, order, in_body, Some(Ok(names))).contains(value) <==> {
            &&& !in_body
            &&& value < shot.values.len()
            &&& shot.ir.values[value as int].producer is Some
            &&& exists|i: int|
                0 <= i < names.len() && #[trigger] names[i] == shot.values[value as int].name
        },
        !layer_values(shot, order, in_body, Some(Err(error))).contains(value),
{
    let name = shot.values[value as int].name;
    if names.contains(name) {
        let i = choose|i: int| 0 <= i < names.len() && names[i] == name;
        assert(names[i] == name);
    }
}

proof fn lemma_split_ends(
    ir: IrState,
    ends: Set<u32>,
    span: nat,
    clusters: Seq<Seq<u32>>,
)
    requires
        span > 0,
    ensures
        forall|c: int|
            0 <= c < split_clusters(ir, ends, span, clusters).len() ==> layer_ends(
                ir,
                ends,
                #[trigger] split_clusters(ir, ends, span, clusters)[c],
            ) <= span,
    decreases clusters.len(),
{
    if clusters.len() > 0 {
        let front = clusters.drop_last();
        lemma_split_ends(ir, ends, span, front);
        let before = split_clusters(ir, ends, span, front);
        let parts = cut_parts(ir, ends, span, clusters.last());
        law_split_keeps_nodes(ir, ends, span, clusters.last());
        let all = before + parts;
        assert forall|c: int| 0 <= c < all.len() implies layer_ends(ir, ends, #[trigger] all[c])
            <= span by {
            if c < before.len() {
                assert(all[c] == before[c]);
            } else {
                assert(all[c] == parts[c - before.len()]);
            }
        }
    }
}

/// Splitting by layers moves no node: the groups in a row list the same nodes in the same order as
/// before. Where a span is set, no group holds more layer ends than the span; where none is, the
/// groups stay whole.
pub proof fn law_groups_split_by_layers(
    shot: Shot,
    order: Seq<u32>,
    claims: Seq<ClaimFacts>,
    query: CapabilityQuery,
    entry: Option<Result<Seq<Seq<char>>, Seq<char>>>,
)
    ensures
        ({
            let ends = layer_values(shot, order, query.in_cf_body, entry);
            let whole = whole_clusters(shot, order, claims, query.in_cf_body);
            let made = claims_model(shot, order, claims, query, entry).clusters;
            let span = partition_span(text_view(query.layer_partitions), ends.len());
            &&& made.flatten() == whole.flatten()
            &&& span is None ==> made == whole
            &&& span matches Some(span) ==> forall|c: int|
                0 <= c < made.len() ==> layer_ends(shot.ir, ends, #[trigger] made[c]) <= span
        }),
{
    let ends = layer_values(shot, order, query.in_cf_body, entry);
    let whole = whole_clusters(shot, order, claims, query.in_cf_body);
    law_span_positive(text_view(query.layer_partitions), ends.len());
    match partition_span(text_view(query.layer_partitions), ends.len()) {
        Some(span) => {
            lemma_split_flatten(shot.ir, ends, span, whole);
            lemma_split_ends(shot.ir, ends, span, whole);
        },
        None => {},
    }
}

/// Groups are cut one by one, each into parts in order: no part is empty, every part but the last
/// holds as many layer ends as the span and ends with one, and the last holds no more.
pub proof fn law_groups_cut_one_by_one(
    ir: IrState,
    ends: Set<u32>,
    span: nat,
    clusters: Seq<Seq<u32>>,
    next: Seq<u32>,
)
    requires
        span > 0,
    ensures
        split_clusters(ir, ends, span, Seq::empty()).len() == 0,
        exists|parts: Seq<Seq<u32>>|
            {
                &&& #[trigger] parts.flatten() == next
                &&& split_clusters(ir, ends, span, clusters.push(next)) == split_clusters(
                    ir,
                    ends,
                    span,
                    clusters,
                ) + parts
                &&& forall|i: int|
                    0 <= i < parts.len() ==> (#[trigger] parts[i]).len() > 0 && layer_ends(
                        ir,
                        ends,
                        parts[i],
                    ) <= span
                &&& forall|i: int|
                    0 <= i < parts.len() - 1 ==> layer_ends(ir, ends, #[trigger] parts[i]) == span
                        && exists|k: int|
                        0 <= k < ir.nodes[parts[i].last() as int].outputs.len() && ends.contains(
                            #[trigger] ir.nodes[parts[i].last() as int].outputs[k],
                        )
            },
{
    let parts = cut_parts(ir, ends, span, next);
    law_split_keeps_nodes(ir, ends, span, next);
    assert(clusters.push(next).drop_last() =~= clusters);
    assert(parts.flatten() == next);
    assert forall|i: int| 0 <= i < parts.len() - 1 implies layer_ends(ir, ends, #[trigger] parts[i])
        == span && exists|k: int|
        0 <= k < ir.nodes[parts[i].last() as int].outputs.len() && ends.contains(
            #[trigger] ir.nodes[parts[i].last() as int].outputs[k],
        ) by {
        assert(node_ends_layer(ir, ends, parts[i].last()));
    }
}

/// A node ends a layer exactly if one of its outputs is a value where layers end.
pub proof fn law_node_ends_layer(ir: IrState, ends: Set<u32>, nodes: Seq<u32>, node: u32)
    ensures
        layer_ends(ir, ends, nodes.push(node)) == layer_ends(ir, ends, nodes) + (if exists|i: int|
            0 <= i < ir.nodes[node as int].outputs.len() && ends.contains(
                #[trigger] ir.nodes[node as int].outputs[i],
            ) {
            1nat
        } else {
            0nat
        }),
        layer_ends(ir, ends, Seq::empty()) == 0,
{
    assert(nodes.push(node).drop_last() =~= nodes);
}

/// While groups wait for each other in a circle, the one that is given up first is the smallest of
/// those that wait, and the first of the smallest; where none waits, all groups stay.
pub proof fn law_smallest_given_up(edges: Set<(int, int)>, clusters: Seq<Seq<int>>)
    ensures
        (forall|c: int| 0 <= c < clusters.len() ==> !#[trigger] blocked(edges, clusters, c))
            ==> break_cycles(edges, clusters) == clusters,
        (exists|c: int| 0 <= c < clusters.len() && #[trigger] blocked(edges, clusters, c))
            ==> exists|c: int|
            {
                &&& 0 <= c < clusters.len()
                &&& #[trigger] blocked(edges, clusters, c)
                &&& break_cycles(edges, clusters) == break_cycles(edges, clusters.remove(c))
                &&& forall|d: int|
                    0 <= d < clusters.len() && #[trigger] blocked(edges, clusters, d)
                        ==> clusters[c].len() <= clusters[d].len()
                &&& forall|d: int|
                    0 <= d < c && #[trigger] blocked(edges, clusters, d) ==> clusters[c].len()
                        < clusters[d].len()
            },
{
    if forall|c: int| 0 <= c < clusters.len() ==> !#[trigger] blocked(edges, clusters, c) {
        assert forall|c: int| !is_victim(edges, clusters, c) by {}
    }
    if exists|c: int| 0 <= c < clusters.len() && #[trigger] blocked(edges, clusters, c) {
        lemma_victim(edges, clusters);
        let c = choose|c: int| is_victim(edges, clusters, c);
        assert(is_victim(edges, clusters, c));
        assert(blocked(edges, clusters, c));
    }
}

/// The smallest of some entries below `k`, and the first of the smallest.
proof fn lemma_least(waits: Seq<bool>, sizes: Seq<nat>, k: int) -> (least: int)
    requires
        0 <= k <= waits.len() == sizes.len(),
        exists|c: int| 0 <= c < k && #[trigger] waits[c],
    ensures
        0 <= least < k,
        waits[least],
        forall|d: int|
            0 <= d < k && #[trigger] waits[d] ==> sizes[least] < sizes[d] || (sizes[least]
                == sizes[d] && least <= d),
    decreases k,
{
    let at = k - 1;
    if exists|c: int| 0 <= c < at && #[trigger] waits[c] {
        let c = lemma_least(waits, sizes, at);
        if waits[at] && sizes[at] < sizes[c] {
            at
        } else {
            c
        }
    } else {
        at
    }
}

proof fn lemma_victim(edges: Set<(int, int)>, clusters: Seq<Seq<int>>)
    requires
        exists|c: int| 0 <= c < clusters.len() && #[trigger] blocked(edges, clusters, c),
    ensures
        exists|c: int| is_victim(edges, clusters, c),
{
    let waits = Seq::new(clusters.len(), |c: int| blocked(edges, clusters, c));
    let sizes = Seq::new(clusters.len(), |c: int| clusters[c].len());
    let c = choose|c: int| 0 <= c < clusters.len() && #[trigger] blocked(edges, clusters, c);
    assert(waits[c]);
    let least = lemma_least(waits, sizes, clusters.len() as int);
    assert(blocked(edges, clusters, least));
    assert forall|d: int|
        0 <= d < clusters.len() && #[trigger] blocked(edges, clusters, d) implies clusters[least].len()
        < clusters[d].len() || (clusters[least].len() == clusters[d].len() && least <= d) by {
        assert(waits[d]);
    }
    assert(is_victim(edges, clusters, least));
}

} // verus!
