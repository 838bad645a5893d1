//! What an inspection finds, told by the slots, types and answers of the nodes.

use vstd::prelude::*;

use crate::capability::{
    anchors_layer, claims_along, claims_model, class_flags, colours_of, double_flags,
    facts_complete, graph_inspected, inspected, is_mixed_vision, is_quantized_decoder, json_names,
    layer_anchors, layer_values, node_in_double, one_true, outcome_shows, places_below,
    slots_in_double, some_true, supported_flags, text_view, total_size, whole_clusters,
    CapabilityFailure, CapabilityModel, CapabilityQuery, FailureModel, Inspection, InspectionModel,
    NodeTest, RawClaimNode,
};
use crate::capability_laws::{
    held, law_claims_supported, lemma_flatten_from, lemma_flatten_holds, lemma_split_flatten,
    listed_supported,
};
use crate::claim_laws::{law_claims_uniform, placed};
use crate::cluster::{edge_clusters, merged_labels, Colours};
use crate::cluster_laws::law_clusters_cover;
use crate::digraph::{acyclic, edges_of, in_range};
use crate::grouping::groups;
use crate::ir::ir_order;
use crate::ort_graph::captured;
use crate::partition::{
    convex_clusters, id_rows, law_runs, row_lengths, run_nodes, runs, split_clusters,
};
use crate::plan_builder::{has_order, order_of};
use crate::quotient::{in_cluster, quotient};
use crate::raw_graph::RawGraph;
use crate::registry::CompilePartitionClass;
use crate::rejection::{is_ranking, ClaimFacts};
use crate::snapshot::{NodeShot, Shot};
use crate::snapshot_laws::{law_mirror_links, mirrors};
use crate::span::{law_span_positive, partition_span};
use crate::text::decimal;
use crate::topology::{backward_rows, forward_rows, is_listing, lemma_rows, linked};

verus! {

/// The slot holds a value whose tensor type has the element type number of 64-bit floating point.
pub open spec fn holds_double(shot: Shot, slot: Option<u32>) -> bool {
    match slot {
        None => false,
        Some(value) => match shot.values[value as int].tensor {
            None => false,
            Some(tensor) => tensor.dtype == Some(11i32),
        },
    }
}

/// Some input slot or some output slot of the node does.
pub open spec fn touches_double(shot: Shot, node: u32) -> bool {
    let record = shot.nodes[node as int];
    ||| exists|i: int|
        0 <= i < record.input_slots.len() && holds_double(shot, #[trigger] record.input_slots[i])
    ||| exists|i: int|
        0 <= i < record.output_slots.len() && holds_double(shot, #[trigger] record.output_slots[i])
}

/// A node counts as working on 64-bit floating-point tensors exactly if one of its present input
/// slots or one of its present output slots holds one.
pub proof fn law_double_in_any_slot(shot: Shot, node: u32)
    ensures
        node_in_double(shot, node) <==> touches_double(shot, node),
{
    let record = shot.nodes[node as int];
    let given = record.input_slots;
    let made = record.output_slots;
    if slots_in_double(shot, given) {
        let i = choose|i: int|
            0 <= i < given.len() && (#[trigger] given[i]) is Some
                && crate::snapshot::value_dtype(shot.values[given[i]->0 as int]) == Some(
                crate::capability::FLOAT64,
            );
        assert(holds_double(shot, given[i]));
    }
    if slots_in_double(shot, made) {
        let i = choose|i: int|
            0 <= i < made.len() && (#[trigger] made[i]) is Some && crate::snapshot::value_dtype(
                shot.values[made[i]->0 as int],
            ) == Some(crate::capability::FLOAT64);
        assert(holds_double(shot, made[i]));
    }
    if exists|i: int| 0 <= i < given.len() && holds_double(shot, #[trigger] given[i]) {
        let i = choose|i: int| 0 <= i < given.len() && holds_double(shot, #[trigger] given[i]);
        assert(given[i] is Some);
    }
    if exists|i: int| 0 <= i < made.len() && holds_double(shot, #[trigger] made[i]) {
        let i = choose|i: int| 0 <= i < made.len() && holds_double(shot, #[trigger] made[i]);
        assert(made[i] is Some);
    }
}

/// What the registry answered for a node stands at place `j` of the query: the last answer counts.
pub open spec fn answers_for(
    nodes: Seq<RawClaimNode>,
    ids: Map<usize, u32>,
    node: u32,
    j: int,
) -> bool {
    &&& speaks_of(nodes, ids, node, j)
    &&& forall|k: int| j < k < nodes.len() ==> !#[trigger] speaks_of(nodes, ids, node, k)
}

/// The entry at place `j` names the node by its ABI number.
pub open spec fn speaks_of(
    nodes: Seq<RawClaimNode>,
    ids: Map<usize, u32>,
    node: u32,
    j: int,
) -> bool {
    &&& 0 <= j < nodes.len()
    &&& nodes[j].ort_id is Ok
    &&& ids.contains_key(nodes[j].ort_id->Ok_0)
    &&& ids[nodes[j].ort_id->Ok_0] == node
}

/// Some entry names the node.
pub open spec fn spoken_of(nodes: Seq<RawClaimNode>, ids: Map<usize, u32>, node: u32) -> bool {
    exists|j: int| #[trigger] speaks_of(nodes, ids, node, j)
}

/// The answer for a node.
pub open spec fn answer(nodes: Seq<RawClaimNode>, ids: Map<usize, u32>, node: u32) -> ClaimFacts {
    nodes[choose|j: int| answers_for(nodes, ids, node, j)].facts
}

/// The entry at place `j` has an ABI number that the graph knows.
pub open spec fn is_known(nodes: Seq<RawClaimNode>, ids: Map<usize, u32>, j: int) -> bool {
    nodes[j].ort_id is Ok && ids.contains_key(nodes[j].ort_id->Ok_0)
}

proof fn lemma_places(nodes: Seq<RawClaimNode>, ids: Map<usize, u32>, k: int)
    requires
        0 <= k <= nodes.len(),
        nodes.len() <= usize::MAX,
    ensures
        places_below(nodes, ids, k) is Ok <==> forall|j: int|
            0 <= j < k ==> #[trigger] is_known(nodes, ids, j),
        places_below(nodes, ids, k) matches Ok(places) ==> forall|node: u32| #[trigger]
            places.contains_key(node) <==> exists|j: int|
                j < k && #[trigger] speaks_of(nodes, ids, node, j),
        places_below(nodes, ids, k) matches Ok(places) ==> forall|node: u32| #[trigger]
            places.contains_key(node) ==> places[node] < k && speaks_of(
                nodes,
                ids,
                node,
                places[node] as int,
            ) && forall|j: int|
                places[node] < j < k ==> !#[trigger] speaks_of(nodes, ids, node, j),
    decreases k,
{
    if k > 0 {
        lemma_places(nodes, ids, k - 1);
        let known = is_known(nodes, ids, k - 1);
        if places_below(nodes, ids, k) is Ok {
            let before = places_below(nodes, ids, k - 1)->Ok_0;
            let places = places_below(nodes, ids, k)->Ok_0;
            let named = ids[nodes[k - 1].ort_id->Ok_0];
            assert(speaks_of(nodes, ids, named, k - 1));
            assert forall|node: u32| #[trigger] places.contains_key(node) <==> exists|j: int|
                j < k && #[trigger] speaks_of(nodes, ids, node, j) by {
                if places.contains_key(node) && node != named {
                    assert(before.contains_key(node));
                    let j = choose|j: int| j < k - 1 && #[trigger] speaks_of(nodes, ids, node, j);
                    assert(speaks_of(nodes, ids, node, j));
                }
                if exists|j: int| j < k && #[trigger] speaks_of(nodes, ids, node, j) {
                    let j = choose|j: int| j < k && #[trigger] speaks_of(nodes, ids, node, j);
                    if j < k - 1 {
                        assert(before.contains_key(node));
                    }
                }
            }
            assert forall|node: u32| #[trigger] places.contains_key(node) implies places[node] < k
                && speaks_of(nodes, ids, node, places[node] as int) && forall|j: int|
                places[node] < j < k ==> !#[trigger] speaks_of(nodes, ids, node, j) by {
                if node != named {
                    assert(before.contains_key(node));
                    assert(places[node] == before[node]);
                }
            }
        }
    }
}

proof fn lemma_answer(nodes: Seq<RawClaimNode>, ids: Map<usize, u32>, places: Map<u32, usize>, node: u32)
    requires
        nodes.len() <= usize::MAX,
        places_below(nodes, ids, nodes.len() as int) == Ok::<Map<u32, usize>, FailureModel>(places),
        places.contains_key(node),
    ensures
        answers_for(nodes, ids, node, places[node] as int),
        answer(nodes, ids, node) == nodes[places[node] as int].facts,
{
    lemma_places(nodes, ids, nodes.len() as int);
    let here = places[node] as int;
    let located = places_below(nodes, ids, nodes.len() as int);
    assert(located is Ok);
    assert(located->Ok_0 == places);
    assert(located->Ok_0.contains_key(node));
    assert(speaks_of(nodes, ids, node, here));
    assert forall|k: int| here < k < nodes.len() implies !#[trigger] speaks_of(
        nodes,
        ids,
        node,
        k,
    ) by {}
    assert(answers_for(nodes, ids, node, here));
    let j = choose|j: int| answers_for(nodes, ids, node, j);
    assert(answers_for(nodes, ids, node, j));
    if j < here {
        assert(!speaks_of(nodes, ids, node, here));
    }
    if here < j {
        assert(!speaks_of(nodes, ids, node, j));
    }
}

proof fn lemma_all_listed(order: Seq<u32>, node: u32)
    requires
        order.no_duplicates(),
        forall|i: int| 0 <= i < order.len() ==> #[trigger] order[i] < order.len(),
        node < order.len(),
    ensures
        exists|i: int| 0 <= i < order.len() && #[trigger] order[i] == node,
{
    if forall|i: int| 0 <= i < order.len() ==> #[trigger] order[i] != node {
        let ids = Seq::new(order.len(), |i: int| order[i] as int);
        let more = ids.push(node as int);
        assert forall|i: int, j: int|
            0 <= i < more.len() && 0 <= j < more.len() && i != j implies more[i] != more[j] by {
            if i < order.len() && j < order.len() {
                assert(order[i] != order[j]);
            }
        }
        more.unique_seq_to_set();
        let all = vstd::set_lib::set_int_range(0, order.len() as int);
        vstd::set_lib::lemma_int_range(0, order.len() as int);
        assert(more.to_set().subset_of(all)) by {
            assert forall|x: int| more.to_set().contains(x) implies all.contains(x) by {
                let i = choose|i: int| 0 <= i < more.len() && more[i] == x;
                if i < order.len() {
                    assert(order[i] < order.len());
                }
            }
        }
        vstd::set_lib::lemma_len_subset(more.to_set(), all);
    }
}

/// What every claim rests on: the graph has its one order, every entry of the query names a known
/// node, and every node is answered for.
proof fn lemma_claims_rest(shot: Shot, query: CapabilityQuery)
    requires
        mirrors(shot),
        inspected(shot, query) matches Ok(found) && found is Claims,
    ensures
        query.nodes is Ok,
        linked(shot.ir),
        shot.ir.nodes.len() == shot.nodes.len(),
        ir_order(shot.ir, order_of(shot.ir)),
        is_listing(shot.ir, order_of(shot.ir)),
        exists|
            claims: Seq<ClaimFacts>,
            entry: Option<Result<Seq<Seq<char>>, Seq<char>>>,
        |
            rests_on(shot, query, claims, entry),
{
    let nodes = query.nodes->Ok_0@;
    assert(query.nodes->Ok_0.len() == nodes.len());
    let order = order_of(shot.ir);
    assert(has_order(shot.ir));
    assert(ir_order(shot.ir, order));
    law_mirror_links(shot);
    let ids = shot.node_by_ort_id;
    let places = places_below(nodes, ids, nodes.len() as int)->Ok_0;
    let claims = claims_along(nodes, places, order);
    let entry = match query.layer_metadata {
        Err(_) => None,
        Ok(metadata) => crate::capability::entry_of(metadata),
    };
    assert(shot.ir.nodes.len() == shot.nodes.len());
    assert forall|i: int| 0 <= i < order.len() implies #[trigger] claims[i] == answer(
        nodes,
        ids,
        order[i],
    ) by {
        assert(order[i] < shot.nodes.len());
        assert(places.contains_key(order[i]));
        lemma_answer(nodes, ids, places, order[i]);
    }
    assert(rests_on(shot, query, claims, entry));
}

/// The claims are those on the listed nodes with their answers.
spec fn rests_on(
    shot: Shot,
    query: CapabilityQuery,
    claims: Seq<ClaimFacts>,
    entry: Option<Result<Seq<Seq<char>>, Seq<char>>>,
) -> bool {
    let order = order_of(shot.ir);
    &&& entry == metadata_entry(query)
    &&& inspected(shot, query) == Ok::<InspectionModel, FailureModel>(
        InspectionModel::Claims(claims_model(shot, order, claims, query, entry)),
    )
    &&& claims.len() == order.len()
    &&& forall|i: int|
        0 <= i < order.len() ==> #[trigger] claims[i] == answer(
            query.nodes->Ok_0@,
            shot.node_by_ort_id,
            order[i],
        )
}

proof fn lemma_member_placed(
    shot: Shot,
    query: CapabilityQuery,
    claims: Seq<ClaimFacts>,
    entry: Option<Result<Seq<Seq<char>>, Seq<char>>>,
    c: int,
    i: int,
)
    requires
        linked(shot.ir),
        ir_order(shot.ir, order_of(shot.ir)),
        0 <= c < claims_model(shot, order_of(shot.ir), claims, query, entry).clusters.len(),
        0 <= i < claims_model(shot, order_of(shot.ir), claims, query, entry).clusters[c].len(),
    ensures
        ({
            let order = order_of(shot.ir);
            let clusters = claims_model(shot, order, claims, query, entry).clusters;
            let at = order.index_of(clusters[c][i]);
            &&& 0 <= at < order.len()
            &&& order[at] == clusters[c][i]
            &&& in_cluster(placed(order, clusters), c, at)
            &&& supported_flags(shot, order, claims, query.in_cf_body)[at]
        }),
{
    let order = order_of(shot.ir);
    let clusters = claims_model(shot, order, claims, query, entry).clusters;
    let node = clusters[c][i];
    law_claims_supported(shot, order, claims, query, entry);
    assert(clusters[c].contains(node));
    assert(held(clusters, node));
    let supported = supported_flags(shot, order, claims, query.in_cf_body);
    assert(listed_supported(order, supported, node));
    let k = choose|k: int| 0 <= k < order.len() && #[trigger] order[k] == node && supported[k];
    assert(order.contains(node));
    let at = order.index_of(node);
    assert(order[at] == node);
    assert(at == k);
    assert(placed(order, clusters)[c][i] == at);
}

/// The node is paged attention, or attention that puts out both parts of its cache.
pub open spec fn anchors(node: NodeShot) -> bool {
    let both = node.output_slots.len() > 2 && node.output_slots[1] is Some && node.output_slots[2]
        is Some;
    ||| node.domain == "com.microsoft"@ && node.op_type == "PagedAttention"@
    ||| node.domain == "com.microsoft"@ && node.op_type == "GroupQueryAttention"@ && both
    ||| node.domain == "com.microsoft"@ && node.op_type == "MultiHeadAttention"@ && both
    ||| node.domain == ""@ && node.op_type == "Attention"@ && both
}

proof fn lemma_anchors(shot: Shot, order: Seq<u32>)
    ensures
        layer_anchors(shot, order).len() > 0 <==> exists|i: int|
            0 <= i < order.len() && anchors(shot.nodes[(#[trigger] order[i]) as int]),
    decreases order.len(),
{
    reveal_strlit("");
    if order.len() > 0 {
        let front = order.drop_last();
        lemma_anchors(shot, front);
        let last = shot.nodes[order.last() as int];
        assert(order.last() == order[order.len() - 1]);
        assert(anchors_layer(last) <==> anchors(last)) by {
            if last.domain.len() == 0 {
                assert(last.domain =~= ""@);
            }
        }
        if layer_anchors(shot, front).len() > 0 {
            let i = choose|i: int|
                0 <= i < front.len() && anchors(shot.nodes[(#[trigger] front[i]) as int]);
            assert(order[i] == front[i]);
        }
        if exists|i: int| 0 <= i < order.len() && anchors(shot.nodes[(#[trigger] order[i]) as int]) {
            let i = choose|i: int|
                0 <= i < order.len() && anchors(shot.nodes[(#[trigger] order[i]) as int]);
            if i < front.len() {
                assert(front[i] == order[i]);
            }
        }
    }
}

/// No claimed group holds both a node with a 64-bit floating-point tensor in one of its slots and a
/// node without any. In a graph with attention that anchors a layer, all nodes of a group are
/// answered for with the same safety of compilation.
pub proof fn law_groups_are_uniform(
    shot: Shot,
    query: CapabilityQuery,
    found: CapabilityModel,
    c: int,
    i: int,
    j: int,
)
    requires
        mirrors(shot),
        inspected(shot, query) == Ok::<InspectionModel, FailureModel>(
            InspectionModel::Claims(found),
        ),
        0 <= c < found.clusters.len(),
        0 <= i < found.clusters[c].len(),
        0 <= j < found.clusters[c].len(),
    ensures
        touches_double(shot, found.clusters[c][i]) == touches_double(shot, found.clusters[c][j]),
        (exists|n: int| 0 <= n < shot.nodes.len() && anchors(#[trigger] shot.nodes[n])) ==> {
            let nodes = query.nodes->Ok_0@;
            answer(nodes, shot.node_by_ort_id, found.clusters[c][i]).shape_safety == answer(
                nodes,
                shot.node_by_ort_id,
                found.clusters[c][j],
            ).shape_safety
        },
{
    lemma_claims_rest(shot, query);
    let order = order_of(shot.ir);
    let (claims, entry) = choose|
        claims: Seq<ClaimFacts>,
        entry: Option<Result<Seq<Seq<char>>, Seq<char>>>,
    |
        rests_on(shot, query, claims, entry);
    lemma_member_placed(shot, query, claims, entry, c, i);
    lemma_member_placed(shot, query, claims, entry, c, j);
    let a = order.index_of(found.clusters[c][i]);
    let b = order.index_of(found.clusters[c][j]);
    law_claims_uniform(shot, order, claims, query, entry, c, a, b);
    assert(double_flags(shot, order)[a] == node_in_double(shot, order[a]));
    assert(double_flags(shot, order)[b] == node_in_double(shot, order[b]));
    law_double_in_any_slot(shot, order[a]);
    law_double_in_any_slot(shot, order[b]);
    if exists|n: int| 0 <= n < shot.nodes.len() && anchors(#[trigger] shot.nodes[n]) {
        let n = choose|n: int| 0 <= n < shot.nodes.len() && anchors(#[trigger] shot.nodes[n]);
        lemma_all_listed(order, n as u32);
        let k = choose|k: int| 0 <= k < order.len() && #[trigger] order[k] == n as u32;
        assert(anchors(shot.nodes[order[k] as int]));
        lemma_anchors(shot, order);
        assert(class_flags(shot, order, claims)[a] == claims[a].shape_safety.class());
        assert(class_flags(shot, order, claims)[b] == claims[b].shape_safety.class());
    }
}

/// Some node of the graph passes a test on its record and on its answer.
pub open spec fn some_node(
    shot: Shot,
    nodes: Seq<RawClaimNode>,
    test: spec_fn(NodeShot, ClaimFacts) -> bool,
) -> bool {
    exists|n: u32|
        n < shot.nodes.len() && test(
            shot.nodes[n as int],
            #[trigger] answer(nodes, shot.node_by_ort_id, n),
        )
}

/// Exactly one node of the graph passes a test on its record and on its answer.
pub open spec fn single_node(
    shot: Shot,
    nodes: Seq<RawClaimNode>,
    test: spec_fn(NodeShot, ClaimFacts) -> bool,
) -> bool {
    &&& some_node(shot, nodes, test)
    &&& forall|m: u32, n: u32|
        m < shot.nodes.len() && n < shot.nodes.len() && test(
            shot.nodes[m as int],
            #[trigger] answer(nodes, shot.node_by_ort_id, m),
        ) && test(shot.nodes[n as int], #[trigger] answer(nodes, shot.node_by_ort_id, n)) ==> m == n
}

/// The graph is a large decoder with attention on separate query, key and value, with a product
/// quantized to eight bits, and with exactly one range of step one between bounds that are not
/// constant and exactly one tiling with repeats that are not constant.
pub open spec fn eight_bit_decoder(shot: Shot, nodes: Seq<RawClaimNode>) -> bool {
    &&& shot.nodes.len() > 32
    &&& some_node(shot, nodes, |node: NodeShot, facts: ClaimFacts| facts.separate_qkv)
    &&& some_node(
        shot,
        nodes,
        |node: NodeShot, facts: ClaimFacts| node.op_type == "MatMulNBits"@ && facts.bits == 8,
    )
    &&& single_node(
        shot,
        nodes,
        |node: NodeShot, facts: ClaimFacts|
            node.op_type == "Range"@ && facts.unit_step && facts.open_bounds,
    )
    &&& single_node(
        shot,
        nodes,
        |node: NodeShot, facts: ClaimFacts| node.op_type == "Tile"@ && !facts.constant_repeats,
    )
}

/// A node can run here: the graph is no body of a control-flow node, and the registry claims the
/// node, or it is a range or a tiling of an eight-bit decoder.
pub open spec fn can_run(shot: Shot, query: CapabilityQuery, node: u32) -> bool {
    let nodes = query.nodes->Ok_0@;
    let op = shot.nodes[node as int].op_type;
    !query.in_cf_body && (answer(nodes, shot.node_by_ort_id, node).claimable || (eight_bit_decoder(
        shot,
        nodes,
    ) && (op == "Range"@ || op == "Tile"@)))
}

proof fn lemma_test(
    shot: Shot,
    nodes: Seq<RawClaimNode>,
    order: Seq<u32>,
    claims: Seq<ClaimFacts>,
    kind: NodeTest,
    test: spec_fn(NodeShot, ClaimFacts) -> bool,
)
    requires
        order.len() == shot.nodes.len() == claims.len(),
        order.no_duplicates(),
        forall|i: int| 0 <= i < order.len() ==> #[trigger] order[i] < order.len(),
        forall|i: int|
            0 <= i < order.len() ==> #[trigger] claims[i] == answer(
                nodes,
                shot.node_by_ort_id,
                order[i],
            ),
        forall|node: NodeShot, facts: ClaimFacts| #[trigger]
            kind.holds(node, facts) == test(node, facts),
    ensures
        some_true(kind.flags(shot, order, claims)) == some_node(shot, nodes, test),
        one_true(kind.flags(shot, order, claims)) == single_node(shot, nodes, test),
{
    let ids = shot.node_by_ort_id;
    let flags = kind.flags(shot, order, claims);
    assert forall|i: int| 0 <= i < order.len() implies #[trigger] flags[i] == test(
        shot.nodes[order[i] as int],
        answer(nodes, ids, order[i]),
    ) by {
        assert(claims[i] == answer(nodes, ids, order[i]));
        assert(kind.holds(shot.nodes[order[i] as int], claims[i]) == test(
            shot.nodes[order[i] as int],
            claims[i],
        ));
    }
    if some_node(shot, nodes, test) {
        let n = choose|n: u32|
            n < shot.nodes.len() && test(shot.nodes[n as int], #[trigger] answer(nodes, ids, n));
        lemma_all_listed(order, n);
        let i = choose|i: int| 0 <= i < order.len() && #[trigger] order[i] == n;
        assert(flags[i]);
        if single_node(shot, nodes, test) {
            assert forall|j: int| 0 <= j < flags.len() && #[trigger] flags[j] implies j == i by {
                assert(order[j] == order[i]);
            }
        }
    }
    if some_true(flags) {
        let i = choose|i: int| 0 <= i < flags.len() && #[trigger] flags[i];
        let n = order[i];
        assert(test(shot.nodes[n as int], answer(nodes, ids, n)));
        if one_true(flags) {
            let one = choose|i: int|
                0 <= i < flags.len() && #[trigger] flags[i] && forall|j: int|
                    0 <= j < flags.len() && #[trigger] flags[j] ==> j == i;
            assert forall|m: u32, n: u32|
                m < shot.nodes.len() && n < shot.nodes.len() && test(
                    shot.nodes[m as int],
                    #[trigger] answer(nodes, ids, m),
                ) && test(shot.nodes[n as int], #[trigger] answer(nodes, ids, n)) implies m == n by {
                lemma_all_listed(order, m);
                lemma_all_listed(order, n);
                let a = choose|a: int| 0 <= a < order.len() && #[trigger] order[a] == m;
                let b = choose|b: int| 0 <= b < order.len() && #[trigger] order[b] == n;
                assert(flags[a] && flags[b]);
            }
        }
    }
}

proof fn lemma_supported(
    shot: Shot,
    query: CapabilityQuery,
    claims: Seq<ClaimFacts>,
    entry: Option<Result<Seq<Seq<char>>, Seq<char>>>,
    i: int,
)
    requires
        shot.ir.nodes.len() == shot.nodes.len(),
        ir_order(shot.ir, order_of(shot.ir)),
        rests_on(shot, query, claims, entry),
        0 <= i < order_of(shot.ir).len(),
    ensures
        supported_flags(shot, order_of(shot.ir), claims, query.in_cf_body)[i] == can_run(
            shot,
            query,
            order_of(shot.ir)[i],
        ),
{
    let order = order_of(shot.ir);
    let nodes = query.nodes->Ok_0@;
    lemma_test(
        shot,
        nodes,
        order,
        claims,
        NodeTest::SeparateAttention,
        |node: NodeShot, facts: ClaimFacts| facts.separate_qkv,
    );
    lemma_test(
        shot,
        nodes,
        order,
        claims,
        NodeTest::EightBitProduct,
        |node: NodeShot, facts: ClaimFacts| node.op_type == "MatMulNBits"@ && facts.bits == 8,
    );
    lemma_test(
        shot,
        nodes,
        order,
        claims,
        NodeTest::OpenRange,
        |node: NodeShot, facts: ClaimFacts|
            node.op_type == "Range"@ && facts.unit_step && facts.open_bounds,
    );
    lemma_test(
        shot,
        nodes,
        order,
        claims,
        NodeTest::OpenTile,
        |node: NodeShot, facts: ClaimFacts| node.op_type == "Tile"@ && !facts.constant_repeats,
    );
    assert(is_quantized_decoder(shot, order, claims) == eight_bit_decoder(shot, nodes));
    assert(claims[i] == answer(nodes, shot.node_by_ort_id, order[i]));
}

/// Every claimed node is a node of the graph that can run here.
pub proof fn law_claimed_nodes_can_run(
    shot: Shot,
    query: CapabilityQuery,
    found: CapabilityModel,
    c: int,
    i: int,
)
    requires
        mirrors(shot),
        inspected(shot, query) == Ok::<InspectionModel, FailureModel>(
            InspectionModel::Claims(found),
        ),
        0 <= c < found.clusters.len(),
        0 <= i < found.clusters[c].len(),
    ensures
        found.clusters[c][i] < shot.nodes.len(),
        can_run(shot, query, found.clusters[c][i]),
{
    lemma_claims_rest(shot, query);
    let (claims, entry) = choose|
        claims: Seq<ClaimFacts>,
        entry: Option<Result<Seq<Seq<char>>, Seq<char>>>,
    |
        rests_on(shot, query, claims, entry);
    lemma_member_placed(shot, query, claims, entry, c, i);
    let order = order_of(shot.ir);
    lemma_supported(shot, query, claims, entry, order.index_of(found.clusters[c][i]));
}

/// The graph mixes packed attention with quantized products, both of the vendor's domain.
pub open spec fn mixes_packed_and_quantized(shot: Shot) -> bool {
    &&& exists|n: int|
        0 <= n < shot.nodes.len() && (#[trigger] shot.nodes[n]).domain == "com.microsoft"@
            && shot.nodes[n].op_type == "PackedMultiHeadAttention"@
    &&& exists|n: int|
        0 <= n < shot.nodes.len() && (#[trigger] shot.nodes[n]).domain == "com.microsoft"@
            && shot.nodes[n].op_type == "MatMulNBits"@
}

proof fn lemma_node_count(shot: Shot)
    requires
        shot.ir.nodes.len() == shot.nodes.len(),
        ir_order(shot.ir, order_of(shot.ir)),
    ensures
        shot.nodes.len() <= u32::MAX + 1,
{
    let order = order_of(shot.ir);
    let ints = Seq::new(order.len(), |i: int| order[i] as int);
    ints.unique_seq_to_set();
    let all = vstd::set_lib::set_int_range(0, u32::MAX + 1);
    vstd::set_lib::lemma_int_range(0, u32::MAX + 1);
    assert forall|x: int| ints.to_set().contains(x) implies all.contains(x) by {
        let i = choose|i: int| 0 <= i < ints.len() && ints[i] == x;
        assert(0 <= order[i] <= u32::MAX);
    }
    vstd::set_lib::lemma_len_subset(ints.to_set(), all);
}

proof fn lemma_mixes(
    shot: Shot,
    query: CapabilityQuery,
    claims: Seq<ClaimFacts>,
    entry: Option<Result<Seq<Seq<char>>, Seq<char>>>,
)
    requires
        shot.ir.nodes.len() == shot.nodes.len(),
        ir_order(shot.ir, order_of(shot.ir)),
        rests_on(shot, query, claims, entry),
    ensures
        is_mixed_vision(shot, order_of(shot.ir), claims) == mixes_packed_and_quantized(shot),
{
    let order = order_of(shot.ir);
    let nodes = query.nodes->Ok_0@;
    let ids = shot.node_by_ort_id;
    let packed = |node: NodeShot, facts: ClaimFacts|
        node.domain == "com.microsoft"@ && node.op_type == "PackedMultiHeadAttention"@;
    let product = |node: NodeShot, facts: ClaimFacts|
        node.domain == "com.microsoft"@ && node.op_type == "MatMulNBits"@;
    lemma_test(shot, nodes, order, claims, NodeTest::PackedAttention, packed);
    lemma_test(shot, nodes, order, claims, NodeTest::QuantizedProduct, product);
    lemma_node_count(shot);
    if exists|n: int|
        0 <= n < shot.nodes.len() && (#[trigger] shot.nodes[n]).domain == "com.microsoft"@
            && shot.nodes[n].op_type == "PackedMultiHeadAttention"@ {
        let n = choose|n: int|
            0 <= n < shot.nodes.len() && (#[trigger] shot.nodes[n]).domain == "com.microsoft"@
                && shot.nodes[n].op_type == "PackedMultiHeadAttention"@;
        assert(packed(shot.nodes[n], answer(nodes, ids, n as u32)));
        assert(some_node(shot, nodes, packed));
    }
    if exists|n: int|
        0 <= n < shot.nodes.len() && (#[trigger] shot.nodes[n]).domain == "com.microsoft"@
            && shot.nodes[n].op_type == "MatMulNBits"@ {
        let n = choose|n: int|
            0 <= n < shot.nodes.len() && (#[trigger] shot.nodes[n]).domain == "com.microsoft"@
                && shot.nodes[n].op_type == "MatMulNBits"@;
        assert(product(shot.nodes[n], answer(nodes, ids, n as u32)));
        assert(some_node(shot, nodes, product));
    }
    if some_node(shot, nodes, packed) {
        let n = choose|n: u32|
            n < shot.nodes.len() && packed(shot.nodes[n as int], #[trigger] answer(nodes, ids, n));
        assert(shot.nodes[n as int].domain == "com.microsoft"@);
    }
    if some_node(shot, nodes, product) {
        let n = choose|n: u32|
            n < shot.nodes.len() && product(shot.nodes[n as int], #[trigger] answer(nodes, ids, n));
        assert(shot.nodes[n as int].domain == "com.microsoft"@);
    }
}

/// What keeps nodes apart: whether they can run here, whether they touch 64-bit floating-point
/// tensors, and in a graph with attention that anchors a layer, how they may be compiled.
pub open spec fn node_colours(shot: Shot, query: CapabilityQuery) -> Colours {
    let order = order_of(shot.ir);
    let decoder = exists|n: int| 0 <= n < shot.nodes.len() && anchors(#[trigger] shot.nodes[n]);
    Colours {
        supported: Seq::new(order.len(), |i: int| can_run(shot, query, order[i])),
        float64: Seq::new(order.len(), |i: int| touches_double(shot, order[i])),
        class: Seq::new(
            order.len(),
            |i: int|
                if decoder {
                    answer(
                        query.nodes->Ok_0@,
                        shot.node_by_ort_id,
                        order[i],
                    ).shape_safety.class()
                } else {
                    CompilePartitionClass::Shapeless
                },
        ),
    }
}

proof fn lemma_colours(
    shot: Shot,
    query: CapabilityQuery,
    claims: Seq<ClaimFacts>,
    entry: Option<Result<Seq<Seq<char>>, Seq<char>>>,
)
    requires
        shot.ir.nodes.len() == shot.nodes.len(),
        ir_order(shot.ir, order_of(shot.ir)),
        rests_on(shot, query, claims, entry),
    ensures
        colours_of(shot, order_of(shot.ir), claims, query.in_cf_body) == node_colours(shot, query),
{
    let order = order_of(shot.ir);
    let made = colours_of(shot, order, claims, query.in_cf_body);
    let told = node_colours(shot, query);
    assert forall|i: int| 0 <= i < order.len() implies made.supported[i] == told.supported[i] by {
        lemma_supported(shot, query, claims, entry, i);
    }
    assert forall|i: int| 0 <= i < order.len() implies made.float64[i] == told.float64[i] by {
        law_double_in_any_slot(shot, order[i]);
    }
    lemma_anchors(shot, order);
    if exists|n: int| 0 <= n < shot.nodes.len() && anchors(#[trigger] shot.nodes[n]) {
        let n = choose|n: int| 0 <= n < shot.nodes.len() && anchors(#[trigger] shot.nodes[n]);
        lemma_node_count(shot);
        lemma_all_listed(order, n as u32);
        let k = choose|k: int| 0 <= k < order.len() && #[trigger] order[k] == n as u32;
        assert(anchors(shot.nodes[order[k] as int]));
    }
    if layer_anchors(shot, order).len() > 0 {
        let k = choose|k: int|
            0 <= k < order.len() && anchors(shot.nodes[(#[trigger] order[k]) as int]);
        assert(anchors(shot.nodes[order[k] as int]));
    }
    assert forall|i: int| 0 <= i < order.len() implies made.class[i] == told.class[i] by {
        assert(claims[i] == answer(query.nodes->Ok_0@, shot.node_by_ort_id, order[i]));
    }
    assert(made.supported =~= told.supported);
    assert(made.float64 =~= told.float64);
    assert(made.class =~= told.class);
}

/// Contracting the merged nodes of the graph closes no cycle.
pub open spec fn merges_cleanly(shot: Shot, query: CapabilityQuery) -> bool {
    let order = order_of(shot.ir);
    let adj = forward_rows(shot.ir, order);
    let degree = row_lengths(backward_rows(shot.ir, order));
    let colours = node_colours(shot, query);
    acyclic(
        quotient(edges_of(adj), groups(colours.supported, merged_labels(colours, adj, degree))),
    )
}

/// Every node that can run here is claimed, unless merging nodes closes a cycle. Where packed
/// attention meets quantized products there is no such exception.
pub proof fn law_what_can_run_is_claimed(
    shot: Shot,
    query: CapabilityQuery,
    found: CapabilityModel,
    node: u32,
)
    requires
        mirrors(shot),
        inspected(shot, query) == Ok::<InspectionModel, FailureModel>(
            InspectionModel::Claims(found),
        ),
        mixes_packed_and_quantized(shot) || merges_cleanly(shot, query),
        node < shot.nodes.len(),
        can_run(shot, query, node),
    ensures
        held(found.clusters, node),
{
    lemma_claims_rest(shot, query);
    let (claims, entry) = choose|
        claims: Seq<ClaimFacts>,
        entry: Option<Result<Seq<Seq<char>>, Seq<char>>>,
    |
        rests_on(shot, query, claims, entry);
    let order = order_of(shot.ir);
    lemma_all_listed(order, node);
    let i = choose|i: int| 0 <= i < order.len() && #[trigger] order[i] == node;
    lemma_supported(shot, query, claims, entry, i);
    lemma_colours(shot, query, claims, entry);
    lemma_mixes(shot, query, claims, entry);
    assert(listed_supported(
        order,
        supported_flags(shot, order, claims, query.in_cf_body),
        node,
    ));
    lemma_held(shot, query, claims, entry, node);
}

proof fn lemma_held(
    shot: Shot,
    query: CapabilityQuery,
    claims: Seq<ClaimFacts>,
    entry: Option<Result<Seq<Seq<char>>, Seq<char>>>,
    node: u32,
)
    requires
        linked(shot.ir),
        ir_order(shot.ir, order_of(shot.ir)),
        claims.len() == order_of(shot.ir).len(),
        colours_of(shot, order_of(shot.ir), claims, query.in_cf_body) == node_colours(shot, query),
        is_mixed_vision(shot, order_of(shot.ir), claims) || merges_cleanly(shot, query),
        listed_supported(
            order_of(shot.ir),
            supported_flags(shot, order_of(shot.ir), claims, query.in_cf_body),
            node,
        ),
    ensures
        held(claims_model(shot, order_of(shot.ir), claims, query, entry).clusters, node),
{
    let order = order_of(shot.ir);
    let colours = colours_of(shot, order, claims, query.in_cf_body);
    let whole = whole_clusters(shot, order, claims, query.in_cf_body);
    let v = choose|v: int|
        0 <= v < order.len() && #[trigger] order[v] == node && colours.supported[v];
    if is_mixed_vision(shot, order, claims) {
        law_runs(colours, 0);
        assert(colours.supported[v]);
        let ranges = runs(colours, 0);
        let i = choose|i: int|
            0 <= i < ranges.len() && (#[trigger] ranges[i]).0 <= v < ranges[i].1;
        assert(whole[i] == order.subrange(ranges[i].0, ranges[i].1));
        assert(whole[i][v - ranges[i].0] == node);
        assert(whole[i].contains(node));
    } else {
        let adj = forward_rows(shot.ir, order);
        let degree = row_lengths(backward_rows(shot.ir, order));
        lemma_rows(shot.ir, order);
        assert(in_range(adj)) by {
            assert forall|a: int, i: int|
                0 <= a < adj.len() && 0 <= i < adj[a].len() implies 0 <= #[trigger] adj[a][i]
                < adj.len() by {
                assert(adj[a].contains(adj[a][i]));
            }
        }
        law_clusters_cover(colours, adj, degree, v);
        let parts = edge_clusters(colours, adj, degree);
        let c = choose|c: int| in_cluster(parts, c, v);
        let i = choose|i: int| 0 <= i < parts[c].len() && parts[c][i] == v;
        assert(whole[c][i] == order[parts[c][i]]);
        assert(whole[c].contains(node));
    }
    assert(held(whole, node));
    let ends = layer_values(shot, order, query.in_cf_body, entry);
    let span = partition_span(text_view(query.layer_partitions), ends.len());
    law_span_positive(text_view(query.layer_partitions), ends.len());
    match span {
        Some(span) => {
            let c = choose|c: int| 0 <= c < whole.len() && (#[trigger] whole[c]).contains(node);
            lemma_flatten_holds(whole, c, node);
            lemma_split_flatten(shot.ir, ends, span, whole);
            lemma_flatten_from(split_clusters(shot.ir, ends, span, whole), node);
        },
        None => {},
    }
}

proof fn lemma_total_flat(rows: Seq<Seq<u32>>)
    ensures
        total_size(rows) == rows.flatten().len(),
    decreases rows.len(),
{
    if rows.len() > 0 {
        let front = rows.drop_last();
        lemma_total_flat(front);
        assert(front.push(rows.last()) =~= rows);
        front.lemma_flatten_push(rows.last());
    }
}

/// What the metadata entry of a query lists, if there is one that could be fetched.
pub open spec fn metadata_entry(query: CapabilityQuery) -> Option<
    Result<Seq<Seq<char>>, Seq<char>>,
> {
    match query.layer_metadata {
        Ok(Some(text)) => Some(json_names(text@)),
        _ => None,
    }
}

/// Where packed attention meets quantized products, the groups are the runs of neighbours that
/// agree; in any other graph they grow along edges. They stay whole unless a span is set, and are
/// else cut where layers end.
pub proof fn law_groups_by_kind_of_graph(
    shot: Shot,
    query: CapabilityQuery,
    found: CapabilityModel,
)
    requires
        mirrors(shot),
        inspected(shot, query) == Ok::<InspectionModel, FailureModel>(
            InspectionModel::Claims(found),
        ),
    ensures
        ({
            let order = order_of(shot.ir);
            let colours = node_colours(shot, query);
            let ends = layer_values(shot, order, query.in_cf_body, metadata_entry(query));
            let whole = if mixes_packed_and_quantized(shot) {
                run_nodes(order, runs(colours, 0))
            } else {
                convex_clusters(shot.ir, order, colours)
            };
            found.clusters == (match partition_span(
                text_view(query.layer_partitions),
                ends.len(),
            ) {
                None => whole,
                Some(span) => split_clusters(shot.ir, ends, span, whole),
            })
        }),
{
    lemma_claims_rest(shot, query);
    let (claims, entry) = choose|
        claims: Seq<ClaimFacts>,
        entry: Option<Result<Seq<Seq<char>>, Seq<char>>>,
    |
        rests_on(shot, query, claims, entry);
    lemma_colours(shot, query, claims, entry);
    lemma_mixes(shot, query, claims, entry);
}

/// The claims count the nodes of the graph and the nodes of all groups. A metadata entry that
/// cannot be read is reported, with the reader's words, unless the graph is the body of a
/// control-flow node.
pub proof fn law_claims_are_counted(shot: Shot, query: CapabilityQuery, found: CapabilityModel)
    requires
        mirrors(shot),
        inspected(shot, query) == Ok::<InspectionModel, FailureModel>(
            InspectionModel::Claims(found),
        ),
    ensures
        found.total == shot.nodes.len(),
        found.claimed == found.clusters.flatten().len(),
        !query.list_rejected ==> found.rejected.dom() =~= Set::<Seq<char>>::empty(),
        found.ignored_metadata == (match query.layer_metadata {
            Ok(Some(text)) => if !query.in_cf_body && json_names(text@) is Err {
                Some(json_names(text@)->Err_0)
            } else {
                None
            },
            _ => None,
        }),
{
    lemma_claims_rest(shot, query);
    lemma_total_flat(found.clusters);
}

/// The outcome of an inspection: a cycle is told, a graph without nodes is empty, a failure to read
/// the nodes is handed on, then the first entry without a known number fails, with its status or
/// with the number; a node that no entry speaks of leaves the inspection incomplete; a failure to
/// read the metadata is handed on, unless the graph is a body; anything else is claims.
pub proof fn law_inspection_outcome(shot: Shot, query: CapabilityQuery)
    ensures
        ({
            let outcome = inspected(shot, query);
            let nodes = query.nodes->Ok_0@;
            let ids = shot.node_by_ort_id;
            let known = forall|j: int| 0 <= j < nodes.len() ==> #[trigger] is_known(nodes, ids, j);
            let complete = forall|n: u32|
                n < shot.nodes.len() ==> #[trigger] spoken_of(nodes, ids, n);
            if !has_order(shot.ir) {
                outcome == Err::<InspectionModel, FailureModel>(
                    FailureModel::Message(
                        "optimized graph IR has no topological order: cycle detected in graph"@,
                    ),
                )
            } else if shot.nodes.len() == 0 {
                outcome == Ok::<InspectionModel, FailureModel>(InspectionModel::Empty)
            } else if query.nodes is Err {
                outcome == Err::<InspectionModel, FailureModel>(
                    FailureModel::Status(query.nodes->Err_0),
                )
            } else if !known {
                exists|j: int|
                    {
                        &&& 0 <= j < nodes.len()
                        &&& !#[trigger] is_known(nodes, ids, j)
                        &&& forall|i: int| 0 <= i < j ==> #[trigger] is_known(nodes, ids, i)
                        &&& outcome == Err::<InspectionModel, FailureModel>(
                            match nodes[j].ort_id {
                                Err(status) => FailureModel::Status(status),
                                Ok(id) => FailureModel::Message(
                                    "optimized graph snapshot is missing ORT node ID "@ + decimal(
                                        id as nat,
                                    ),
                                ),
                            },
                        )
                    }
            } else if !complete {
                outcome == Ok::<InspectionModel, FailureModel>(InspectionModel::Incomplete)
            } else if query.layer_metadata is Err && !query.in_cf_body {
                outcome == Err::<InspectionModel, FailureModel>(
                    FailureModel::Status(query.layer_metadata->Err_0),
                )
            } else {
                outcome is Ok && outcome->Ok_0 is Claims
            }
        }),
{
    let nodes = query.nodes->Ok_0@;
    let ids = shot.node_by_ort_id;
    if has_order(shot.ir) && shot.nodes.len() > 0 && query.nodes is Ok {
        assert(query.nodes->Ok_0.len() == nodes.len());
        let n = nodes.len() as int;
        lemma_places(nodes, ids, n);
        let located = places_below(nodes, ids, n);
        if located is Err {
            lemma_first_unknown(nodes, ids, n);
        } else {
            let places = located->Ok_0;
            if facts_complete(places, shot.nodes.len()) {
                assert forall|m: u32| m < shot.nodes.len() implies #[trigger] spoken_of(
                    nodes,
                    ids,
                    m,
                ) by {
                    assert(places.contains_key(m));
                }
            } else {
                let m = choose|m: u32|
                    m < shot.nodes.len() && !#[trigger] places.contains_key(m);
                assert(!spoken_of(nodes, ids, m));
            }
        }
    }
}

proof fn lemma_first_unknown(nodes: Seq<RawClaimNode>, ids: Map<usize, u32>, k: int)
    requires
        0 <= k <= nodes.len(),
        places_below(nodes, ids, k) is Err,
    ensures
        exists|j: int|
            {
                &&& 0 <= j < k
                &&& !#[trigger] is_known(nodes, ids, j)
                &&& forall|i: int| 0 <= i < j ==> #[trigger] is_known(nodes, ids, i)
                &&& places_below(nodes, ids, k) == Err::<Map<u32, usize>, FailureModel>(
                    match nodes[j].ort_id {
                        Err(status) => FailureModel::Status(status),
                        Ok(id) => FailureModel::Message(
                            "optimized graph snapshot is missing ORT node ID "@ + decimal(
                                id as nat,
                            ),
                        ),
                    },
                )
            },
    decreases k,
{
    if k > 0 {
        if places_below(nodes, ids, k - 1) is Err {
            lemma_first_unknown(nodes, ids, k - 1);
        } else {
            lemma_known_before(nodes, ids, k - 1);
            assert(!is_known(nodes, ids, k - 1));
        }
    }
}

proof fn lemma_known_before(nodes: Seq<RawClaimNode>, ids: Map<usize, u32>, k: int)
    requires
        0 <= k <= nodes.len(),
        places_below(nodes, ids, k) is Ok,
    ensures
        forall|i: int| 0 <= i < k ==> #[trigger] is_known(nodes, ids, i),
    decreases k,
{
    if k > 0 {
        lemma_known_before(nodes, ids, k - 1);
    }
}

/// An outcome tells what was found: it is of the same kind, and claims list the same groups node by
/// node, the same numbers, the refusals, and why a metadata entry was ignored.
pub proof fn law_outcome_tells(
    outcome: Result<Inspection, CapabilityFailure>,
    found: Result<InspectionModel, FailureModel>,
)
    requires
        outcome_shows(outcome, found),
    ensures
        outcome is Ok <==> found is Ok,
        outcome is Ok ==> {
            &&& outcome->Ok_0 is Empty <==> found->Ok_0 is Empty
            &&& outcome->Ok_0 is Incomplete <==> found->Ok_0 is Incomplete
            &&& outcome->Ok_0 is Claims <==> found->Ok_0 is Claims
        },
        outcome is Ok && outcome->Ok_0 is Claims ==> {
            let capability = outcome->Ok_0->Claims_0;
            let model = found->Ok_0->Claims_0;
            &&& capability.clusters@.len() == model.clusters.len()
            &&& forall|c: int|
                0 <= c < model.clusters.len() ==> (#[trigger] capability.clusters@[c])@
                    == model.clusters[c]
            &&& capability.claimed == model.claimed
            &&& capability.total == model.total
            &&& is_ranking(capability.rejected@, model.rejected)
            &&& capability.ignored_metadata is Some <==> model.ignored_metadata is Some
            &&& capability.ignored_metadata matches Some(text) ==> text@
                == model.ignored_metadata->0
        },
        outcome matches Err(CapabilityFailure::Message(text)) ==> found == Err::<
            InspectionModel,
            FailureModel,
        >(FailureModel::Message(text@)),
        outcome matches Err(CapabilityFailure::Status(status)) ==> found == Err::<
            InspectionModel,
            FailureModel,
        >(FailureModel::Status(status)),
{
    if outcome is Ok && outcome->Ok_0 is Claims {
        let capability = outcome->Ok_0->Claims_0;
        let model = found->Ok_0->Claims_0;
        assert(id_rows(capability.clusters@) == model.clusters);
        assert forall|c: int| 0 <= c < model.clusters.len() implies (
        #[trigger] capability.clusters@[c])@ == model.clusters[c] by {
            assert(id_rows(capability.clusters@)[c] == capability.clusters@[c]@);
        }
    }
}

/// The claims on a graph that was read are those on its snapshot; without a graph, or where reading
/// it failed, there are none.
pub proof fn law_claims_need_a_graph(raw: Option<RawGraph>, query: CapabilityQuery)
    ensures
        raw is None ==> graph_inspected(raw, query) == Err::<InspectionModel, FailureModel>(
            FailureModel::Message("ORT supplied a null graph"@),
        ),
        raw is Some && captured(raw->0) is Err ==> graph_inspected(raw, query) == Err::<
            InspectionModel,
            FailureModel,
        >(FailureModel::Message(captured(raw->0)->Err_0)),
        raw is Some && captured(raw->0) is Ok ==> graph_inspected(raw, query) == inspected(
            captured(raw->0)->Ok_0,
            query,
        ),
{
}

} // verus!
