//! Which nodes of a graph the provider claims, and in which groups.

use std::collections::{HashMap, HashSet};

use vstd::prelude::*;

use crate::cluster::{edge_clusters, Colours};
use crate::cluster_laws::{ascending, law_clusters_partition_supported};
use crate::digraph::in_range;
use crate::ir::{ir_order, ir_state, producer, topological_order, IrState, ValueId};
use crate::ort_graph::captured;
use crate::partition::{
    build_contiguous_clusters, build_convex_clusters, cluster_nodes, convex_clusters, cut_parts,
    id_rows, infer_layer_boundary_values, inferred_boundaries, law_runs, law_split_keeps_nodes,
    row_lengths, run_nodes, runs, split_annotated_layer_clusters, split_clusters,
};
use crate::plan_builder::{has_order, lemma_order_unique, order_of};
use crate::planner::find_value;
use crate::quotient::{in_cluster, tidy};
use crate::raw_graph::{fits, RawGraph};
use crate::registry::CompilePartitionClass;
use crate::rejection::{
    collect_rejections, facts_of, is_ranking, refused, texts, ClaimFacts, Rejection, Refusals,
};
use crate::snapshot::{
    shot_of, slots_live, value_dtype, well_formed, NodeMetadata, NodeShot, OrtGraphSnapshot, Shot,
};
use crate::snapshot_laws::{law_mirror_links, mirrors};
use crate::span::{partition_span, select_layer_partition_span};
use crate::text::{decimal, decimal_text, join2, same_text};
use crate::topology::{backward_rows, forward_rows, is_listing, lemma_rows, linked};

verus! {

broadcast use vstd::std_specs::hash::group_hash_axioms;

/// The ONNX number of the 64-bit floating-point element type.
pub const FLOAT64: i32 = 11;

/// A graph needs more nodes than this to be taken for a quantized decoder.
pub const SMALL_GRAPH: usize = 32;

/// One node as it is read over the ABI: its id, or the handle of the status that reading it gave.
pub struct RawClaimNode {
    pub ort_id: Result<usize, usize>,
    pub facts: ClaimFacts,
}

/// What is asked of a graph. A `usize` in the place of an error is the handle of an ABI status.
pub struct CapabilityQuery {
    pub nodes: Result<Vec<RawClaimNode>, usize>,
    /// The graph is the body of a control-flow node.
    pub in_cf_body: bool,
    /// The metadata entry that lists where layers end.
    pub layer_metadata: Result<Option<String>, usize>,
    /// The setting for the number of layers in a partition.
    pub layer_partitions: Option<String>,
    /// Refused nodes are to be listed.
    pub list_rejected: bool,
}

/// The groups of nodes to fuse.
pub struct Capability {
    pub clusters: Vec<Vec<u32>>,
    pub claimed: usize,
    pub total: usize,
    pub rejected: Vec<Rejection>,
    /// Why the metadata entry was ignored.
    pub ignored_metadata: Option<String>,
}

pub enum Inspection {
    /// The graph has no nodes.
    Empty,
    /// The query says nothing of some node of the graph.
    Incomplete,
    Claims(Capability),
}

pub enum CapabilityFailure {
    Message(String),
    Status(usize),
}

#[verifier::ext_equal]
pub ghost struct CapabilityModel {
    pub clusters: Seq<Seq<u32>>,
    pub claimed: nat,
    pub total: nat,
    pub rejected: Map<Seq<char>, Refusals>,
    pub ignored_metadata: Option<Seq<char>>,
}

pub ghost enum InspectionModel {
    Empty,
    Incomplete,
    Claims(CapabilityModel),
}

pub ghost enum FailureModel {
    Message(Seq<char>),
    Status(usize),
}

/// The texts in a JSON array of strings, or why the text is no such array.
pub uninterp spec fn json_names(text: Seq<char>) -> Result<Seq<Seq<char>>, Seq<char>>;

/// `serde_json::from_str` at `Vec<String>`, with the error's own text.
#[verifier::external_body]
fn parse_json_names(text: &str) -> (names: Result<Vec<String>, String>)
    ensures
        match names {
            Ok(list) => json_names(text@) == Ok::<Seq<Seq<char>>, Seq<char>>(texts(list@)),
            Err(error) => json_names(text@) == Err::<Seq<Seq<char>>, Seq<char>>(error@),
        },
{
    serde_json::from_str::<Vec<String>>(text).map_err(|error| error.to_string())
}

/// The node anchors a decoder layer: paged attention, or attention that puts out both parts of its
/// cache.
pub open spec fn anchors_layer(node: NodeShot) -> bool {
    let vendor = node.domain == "com.microsoft"@;
    let caches = node.output_slots.len() > 2 && node.output_slots[1] is Some && node.output_slots[2]
        is Some;
    ||| vendor && node.op_type == "PagedAttention"@
    ||| caches && vendor && (node.op_type == "GroupQueryAttention"@ || node.op_type
        == "MultiHeadAttention"@)
    ||| caches && node.domain.len() == 0 && node.op_type == "Attention"@
}

/// Whether a node anchors a decoder layer.
pub fn is_decoder_attention_anchor(node: &NodeMetadata) -> (anchor: bool)
    ensures
        anchor == anchors_layer(node@),
{
    let domain: &str = node.domain.as_str();
    let op_type: &str = node.op_type.as_str();
    let vendor: bool = same_text(domain, "com.microsoft");
    if vendor && same_text(op_type, "PagedAttention") {
        return true;
    }
    let caches: bool = node.output_slots.len() > 2 && node.output_slots[1].is_some()
        && node.output_slots[2].is_some();
    caches && ((vendor && (same_text(op_type, "GroupQueryAttention") || same_text(
        op_type,
        "MultiHeadAttention",
    ))) || (domain.is_empty() && same_text(op_type, "Attention")))
}

/// A value in one of the slots is a 64-bit floating-point tensor.
pub open spec fn slots_in_double(shot: Shot, slots: Seq<Option<u32>>) -> bool {
    exists|i: int|
        0 <= i < slots.len() && (#[trigger] slots[i]) is Some && value_dtype(
            shot.values[slots[i]->0 as int],
        ) == Some(FLOAT64)
}

/// The node reads or puts out a 64-bit floating-point tensor.
pub open spec fn node_in_double(shot: Shot, node: u32) -> bool {
    slots_in_double(shot, shot.nodes[node as int].input_slots) || slots_in_double(
        shot,
        shot.nodes[node as int].output_slots,
    )
}

fn any_double(snapshot: &OrtGraphSnapshot, slots: &Vec<Option<u32>>) -> (double: bool)
    requires
        slots_live(slots@, snapshot.values@.len() as int),
    ensures
        double == slots_in_double(shot_of(*snapshot), slots@),
{
    let ghost shot = shot_of(*snapshot);
    let mut at: usize = 0;
    while at < slots.len()
        invariant
            at <= slots@.len(),
            slots_live(slots@, snapshot.values@.len() as int),
            shot == shot_of(*snapshot),
            forall|i: int|
                0 <= i < at && (#[trigger] slots@[i]) is Some ==> value_dtype(
                    shot.values[slots@[i]->0 as int],
                ) != Some(FLOAT64),
        decreases slots@.len() - at,
    {
        match slots[at] {
            None => {},
            Some(value) => {
                proof {
                    assert(slots@[at as int] == Some(value));
                    assert(shot.values[value as int] == snapshot.values@[value as int]@);
                }
                match &snapshot.values[value as usize].tensor {
                    None => {},
                    Some(tensor) => match tensor.dtype {
                        None => {},
                        Some(dtype) => {
                            if dtype == FLOAT64 {
                                return true;
                            }
                        },
                    },
                }
            },
        }
        at = at + 1;
    }
    false
}

/// Whether a node reads or puts out a 64-bit floating-point tensor.
pub fn snapshot_node_uses_float64(snapshot: &OrtGraphSnapshot, node: u32) -> (double: bool)
    requires
        well_formed(*snapshot),
        node < snapshot.nodes@.len(),
    ensures
        double == node_in_double(shot_of(*snapshot), node),
        forall|i: int|
            0 <= i < snapshot.nodes@[node as int].input_slots@.len() && (
            #[trigger] snapshot.nodes@[node as int].input_slots@[i]) is Some && ({
                let value = snapshot.values@[snapshot.nodes@[node as int].input_slots@[i]->0 as int];
                value.tensor is Some && value.tensor->0.dtype == Some(11i32)
            }) ==> double,
        forall|i: int|
            0 <= i < snapshot.nodes@[node as int].output_slots@.len() && (
            #[trigger] snapshot.nodes@[node as int].output_slots@[i]) is Some && ({
                let value = snapshot.values@[snapshot.nodes@[node as int].output_slots@[i]->0 as int];
                value.tensor is Some && value.tensor->0.dtype == Some(11i32)
            }) ==> double,
{
    proof {
        let record = shot_of(*snapshot).nodes[node as int];
        assert(slots_live(record.input_slots, shot_of(*snapshot).values.len() as int));
        assert(record == snapshot.nodes@[node as int]@);
        assert forall|value: int| 0 <= value < snapshot.values@.len() implies value_dtype(
            #[trigger] shot_of(*snapshot).values[value],
        ) == (match snapshot.values@[value].tensor {
            Some(tensor) => tensor.dtype,
            None => None,
        }) by {
            assert(shot_of(*snapshot).values[value] == snapshot.values@[value]@);
        }
    }
    any_double(snapshot, &snapshot.nodes[node as usize].input_slots) || any_double(
        snapshot,
        &snapshot.nodes[node as usize].output_slots,
    )
}

/// The facts of each listed node.
pub open spec fn claims_along(
    nodes: Seq<RawClaimNode>,
    places: Map<u32, usize>,
    order: Seq<u32>,
) -> Seq<ClaimFacts> {
    Seq::new(order.len(), |i: int| nodes[places[order[i]] as int].facts)
}

/// The place of the facts of each node, or the first failure.
pub open spec fn places_below(
    nodes: Seq<RawClaimNode>,
    ids: Map<usize, u32>,
    k: int,
) -> Result<Map<u32, usize>, FailureModel>
    decreases k,
{
    if k <= 0 {
        Ok(Map::empty())
    } else {
        match places_below(nodes, ids, k - 1) {
            Err(failure) => Err(failure),
            Ok(before) => match nodes[k - 1].ort_id {
                Err(status) => Err(FailureModel::Status(status)),
                Ok(id) => if ids.contains_key(id) {
                    Ok(before.insert(ids[id], (k - 1) as usize))
                } else {
                    Err(
                        FailureModel::Message(
                            "optimized graph snapshot is missing ORT node ID "@ + decimal(
                                id as nat,
                            ),
                        ),
                    )
                },
            },
        }
    }
}

proof fn lemma_places(nodes: Seq<RawClaimNode>, ids: Map<usize, u32>, k: int, n: int)
    requires
        0 <= k <= n,
    ensures
        places_below(nodes, ids, k) is Err ==> places_below(nodes, ids, n) == places_below(
            nodes,
            ids,
            k,
        ),
        places_below(nodes, ids, n) matches Ok(places) ==> forall|id: u32| #[trigger]
            places.contains_key(id) ==> places[id] < n,
    decreases n,
{
    if n > 0 {
        if k < n {
            lemma_places(nodes, ids, k, n - 1);
        } else {
            lemma_places(nodes, ids, k - 1, n - 1);
        }
    }
}

fn locate_facts(nodes: &Vec<RawClaimNode>, snapshot: &OrtGraphSnapshot) -> (places: Result<
    HashMap<u32, usize>,
    CapabilityFailure,
>)
    ensures
        match places {
            Ok(places) => places_below(
                nodes@,
                shot_of(*snapshot).node_by_ort_id,
                nodes@.len() as int,
            ) == Ok::<Map<u32, usize>, FailureModel>(places@),
            Err(failure) => places_below(
                nodes@,
                shot_of(*snapshot).node_by_ort_id,
                nodes@.len() as int,
            ) == Err::<Map<u32, usize>, FailureModel>(failure_model(failure)),
        },
{
    let ghost ids = shot_of(*snapshot).node_by_ort_id;
    let mut places: HashMap<u32, usize> = HashMap::new();
    let mut at: usize = 0;
    while at < nodes.len()
        invariant
            at <= nodes@.len(),
            ids == snapshot.node_by_ort_id@,
            places_below(nodes@, ids, at as int) == Ok::<Map<u32, usize>, FailureModel>(places@),
        decreases nodes@.len() - at,
    {
        match &nodes[at].ort_id {
            Err(status) => {
                proof {
                    lemma_places(nodes@, ids, at + 1, nodes@.len() as int);
                }
                return Err(CapabilityFailure::Status(*status));
            },
            Ok(id) => match snapshot.node_by_ort_id.get(id) {
                None => {
                    proof {
                        lemma_places(nodes@, ids, at + 1, nodes@.len() as int);
                    }
                    return Err(
                        CapabilityFailure::Message(
                            join2(
                                "optimized graph snapshot is missing ORT node ID ",
                                decimal_text(*id as u64).as_str(),
                            ),
                        ),
                    );
                },
                Some(node) => {
                    places.insert(*node, at);
                },
            },
        }
        at = at + 1;
    }
    Ok(places)
}

pub open spec fn failure_model(failure: CapabilityFailure) -> FailureModel {
    match failure {
        CapabilityFailure::Message(text) => FailureModel::Message(text@),
        CapabilityFailure::Status(status) => FailureModel::Status(status),
    }
}

/// Every node has facts.
pub open spec fn facts_complete(places: Map<u32, usize>, count: nat) -> bool {
    forall|id: u32| id < count ==> #[trigger] places.contains_key(id)
}

/// Some listed node passes.
pub open spec fn some_true(flags: Seq<bool>) -> bool {
    exists|i: int| 0 <= i < flags.len() && #[trigger] flags[i]
}

/// Exactly one listed node passes.
pub open spec fn one_true(flags: Seq<bool>) -> bool {
    exists|i: int|
        0 <= i < flags.len() && #[trigger] flags[i] && forall|j: int|
            0 <= j < flags.len() && #[trigger] flags[j] ==> j == i
}

/// The tests on single nodes that tell kinds of graphs apart.
#[derive(Clone, Copy, Debug, PartialEq, Eq, Structural)]
pub enum NodeTest {
    /// Attention with separate query, key and value.
    SeparateAttention,
    /// A matrix product quantized to eight bits.
    EightBitProduct,
    /// A range with step one and a bound that is not constant.
    OpenRange,
    /// A tiling with repeats that are not constant.
    OpenTile,
    PackedAttention,
    QuantizedProduct,
}

impl NodeTest {
    pub open spec fn holds(self, node: NodeShot, facts: ClaimFacts) -> bool {
        match self {
            NodeTest::SeparateAttention => facts.separate_qkv,
            NodeTest::EightBitProduct => node.op_type == "MatMulNBits"@ && facts.bits == 8,
            NodeTest::OpenRange => node.op_type == "Range"@ && facts.unit_step && facts.open_bounds,
            NodeTest::OpenTile => node.op_type == "Tile"@ && !facts.constant_repeats,
            NodeTest::PackedAttention => node.domain == "com.microsoft"@ && node.op_type
                == "PackedMultiHeadAttention"@,
            NodeTest::QuantizedProduct => node.domain == "com.microsoft"@ && node.op_type
                == "MatMulNBits"@,
        }
    }

    fn test(self, node: &NodeMetadata, facts: &ClaimFacts) -> (holds: bool)
        ensures
            holds == self.holds(node@, *facts),
    {
        let op_type: &str = node.op_type.as_str();
        let domain: &str = node.domain.as_str();
        match self {
            NodeTest::SeparateAttention => facts.separate_qkv,
            NodeTest::EightBitProduct => same_text(op_type, "MatMulNBits") && facts.bits == 8,
            NodeTest::OpenRange => same_text(op_type, "Range") && facts.unit_step
                && facts.open_bounds,
            NodeTest::OpenTile => same_text(op_type, "Tile") && !facts.constant_repeats,
            NodeTest::PackedAttention => same_text(domain, "com.microsoft") && same_text(
                op_type,
                "PackedMultiHeadAttention",
            ),
            NodeTest::QuantizedProduct => same_text(domain, "com.microsoft") && same_text(
                op_type,
                "MatMulNBits",
            ),
        }
    }

    /// Which listed nodes pass.
    pub open spec fn flags(self, shot: Shot, order: Seq<u32>, claims: Seq<ClaimFacts>) -> Seq<bool> {
        Seq::new(order.len(), |i: int| self.holds(shot.nodes[order[i] as int], claims[i]))
    }

    fn all_flags(
        self,
        snapshot: &OrtGraphSnapshot,
        order: &Vec<u32>,
        claims: &Vec<&ClaimFacts>,
    ) -> (flags: Vec<bool>)
        requires
            claims@.len() == order@.len(),
            forall|i: int| 0 <= i < order@.len() ==> #[trigger] order@[i] < snapshot.nodes@.len(),
        ensures
            flags@ == self.flags(shot_of(*snapshot), order@, facts_of(claims@)),
    {
        let ghost shot = shot_of(*snapshot);
        let mut flags: Vec<bool> = Vec::new();
        while flags.len() < order.len()
            invariant
                flags@.len() <= order@.len(),
                claims@.len() == order@.len(),
                shot == shot_of(*snapshot),
                forall|i: int|
                    0 <= i < order@.len() ==> #[trigger] order@[i] < snapshot.nodes@.len(),
                forall|i: int|
                    0 <= i < flags@.len() ==> #[trigger] flags@[i] == self.holds(
                        shot.nodes[order@[i] as int],
                        *claims@[i],
                    ),
            decreases order@.len() - flags@.len(),
        {
            let at: usize = flags.len();
            let flag: bool = self.test(&snapshot.nodes[order[at] as usize], claims[at]);
            flags.push(flag);
        }
        proof {
            assert(flags@ =~= self.flags(shot, order@, facts_of(claims@)));
        }
        flags
    }
}

fn has_true(flags: &Vec<bool>) -> (found: bool)
    ensures
        found == some_true(flags@),
{
    let mut at: usize = 0;
    while at < flags.len()
        invariant
            at <= flags@.len(),
            forall|i: int| 0 <= i < at ==> !#[trigger] flags@[i],
        decreases flags@.len() - at,
    {
        if flags[at] {
            return true;
        }
        at = at + 1;
    }
    false
}

fn has_one_true(flags: &Vec<bool>) -> (one: bool)
    ensures
        one == one_true(flags@),
{
    let mut first: Option<usize> = None;
    let mut at: usize = 0;
    while at < flags.len()
        invariant
            at <= flags@.len(),
            match first {
                None => forall|i: int| 0 <= i < at ==> !#[trigger] flags@[i],
                Some(k) => k < at && flags@[k as int] && forall|i: int|
                    0 <= i < at && #[trigger] flags@[i] ==> i == k,
            },
        decreases flags@.len() - at,
    {
        if flags[at] {
            match first {
                Some(k) => {
                    assert(flags@[k as int] && flags@[at as int] && k != at);
                    return false;
                },
                None => {
                    first = Some(at);
                },
            }
        }
        at = at + 1;
    }
    match first {
        Some(k) => {
            assert(flags@[k as int]);
            true
        },
        None => false,
    }
}

/// A decoder with eight-bit products whose position ids come from one range and one tiling. That
/// pair is kept with the decoder.
pub open spec fn is_quantized_decoder(
    shot: Shot,
    order: Seq<u32>,
    claims: Seq<ClaimFacts>,
) -> bool {
    &&& order.len() > SMALL_GRAPH
    &&& some_true(NodeTest::SeparateAttention.flags(shot, order, claims))
    &&& some_true(NodeTest::EightBitProduct.flags(shot, order, claims))
    &&& one_true(NodeTest::OpenRange.flags(shot, order, claims))
    &&& one_true(NodeTest::OpenTile.flags(shot, order, claims))
}

fn quantized_decoder(
    snapshot: &OrtGraphSnapshot,
    order: &Vec<u32>,
    claims: &Vec<&ClaimFacts>,
) -> (found: bool)
    requires
        claims@.len() == order@.len(),
        forall|i: int| 0 <= i < order@.len() ==> #[trigger] order@[i] < snapshot.nodes@.len(),
    ensures
        found == is_quantized_decoder(shot_of(*snapshot), order@, facts_of(claims@)),
{
    order.len() > SMALL_GRAPH && has_true(
        &NodeTest::SeparateAttention.all_flags(snapshot, order, claims),
    ) && has_true(&NodeTest::EightBitProduct.all_flags(snapshot, order, claims)) && has_one_true(
        &NodeTest::OpenRange.all_flags(snapshot, order, claims),
    ) && has_one_true(&NodeTest::OpenTile.all_flags(snapshot, order, claims))
}

/// A graph that mixes packed attention with quantized products: its clusters are runs of
/// neighbours.
pub open spec fn is_mixed_vision(shot: Shot, order: Seq<u32>, claims: Seq<ClaimFacts>) -> bool {
    some_true(NodeTest::PackedAttention.flags(shot, order, claims)) && some_true(
        NodeTest::QuantizedProduct.flags(shot, order, claims),
    )
}

fn mixed_vision(
    snapshot: &OrtGraphSnapshot,
    order: &Vec<u32>,
    claims: &Vec<&ClaimFacts>,
) -> (found: bool)
    requires
        claims@.len() == order@.len(),
        forall|i: int| 0 <= i < order@.len() ==> #[trigger] order@[i] < snapshot.nodes@.len(),
    ensures
        found == is_mixed_vision(shot_of(*snapshot), order@, facts_of(claims@)),
{
    has_true(&NodeTest::PackedAttention.all_flags(snapshot, order, claims)) && has_true(
        &NodeTest::QuantizedProduct.all_flags(snapshot, order, claims),
    )
}

/// Which listed nodes can run here. Nothing inside the body of a control-flow node is claimed on
/// its own.
pub open spec fn supported_flags(
    shot: Shot,
    order: Seq<u32>,
    claims: Seq<ClaimFacts>,
    in_body: bool,
) -> Seq<bool> {
    Seq::new(
        order.len(),
        |i: int|
            !in_body && (claims[i].claimable || (is_quantized_decoder(shot, order, claims) && (
            shot.nodes[order[i] as int].op_type == "Range"@ || shot.nodes[order[i] as int].op_type
                == "Tile"@))),
    )
}

pub open spec fn double_flags(shot: Shot, order: Seq<u32>) -> Seq<bool> {
    Seq::new(order.len(), |i: int| node_in_double(shot, order[i]))
}

/// The listed nodes that anchor decoder layers.
pub open spec fn layer_anchors(shot: Shot, order: Seq<u32>) -> Seq<u32>
    decreases order.len(),
{
    if order.len() == 0 {
        Seq::empty()
    } else {
        let front = layer_anchors(shot, order.drop_last());
        if anchors_layer(shot.nodes[order.last() as int]) {
            front.push(order.last())
        } else {
            front
        }
    }
}

/// The partition classes; they count only in a decoder.
pub open spec fn class_flags(
    shot: Shot,
    order: Seq<u32>,
    claims: Seq<ClaimFacts>,
) -> Seq<CompilePartitionClass> {
    Seq::new(
        order.len(),
        |i: int|
            if layer_anchors(shot, order).len() > 0 {
                claims[i].shape_safety.class()
            } else {
                CompilePartitionClass::Shapeless
            },
    )
}

pub open spec fn colours_of(
    shot: Shot,
    order: Seq<u32>,
    claims: Seq<ClaimFacts>,
    in_body: bool,
) -> Colours {
    Colours {
        supported: supported_flags(shot, order, claims, in_body),
        float64: double_flags(shot, order),
        class: class_flags(shot, order, claims),
    }
}

/// The clusters before they are split by layers.
pub open spec fn whole_clusters(
    shot: Shot,
    order: Seq<u32>,
    claims: Seq<ClaimFacts>,
    in_body: bool,
) -> Seq<Seq<u32>> {
    let colours = colours_of(shot, order, claims, in_body);
    if is_mixed_vision(shot, order, claims) {
        run_nodes(order, runs(colours, 0))
    } else {
        convex_clusters(shot.ir, order, colours)
    }
}

/// The values with these names that some node produces.
pub open spec fn named_boundaries(shot: Shot, names: Seq<Seq<char>>) -> Set<u32> {
    Set::new(
        |value: u32|
            value < shot.values.len() && names.contains(shot.values[value as int].name)
                && shot.ir.values[value as int].producer is Some,
    )
}

/// Where layers end: as the metadata entry says, nowhere if it cannot be read, inferred if there is
/// none.
pub open spec fn layer_values(
    shot: Shot,
    order: Seq<u32>,
    in_body: bool,
    entry: Option<Result<Seq<Seq<char>>, Seq<char>>>,
) -> Set<u32> {
    if in_body {
        Set::empty()
    } else {
        match entry {
            Some(Ok(names)) => named_boundaries(shot, names),
            Some(Err(_)) => Set::empty(),
            None => inferred_boundaries(shot.ir, order, layer_anchors(shot, order)),
        }
    }
}

/// The clusters, split by layers where the span asks for it.
pub open spec fn layered(
    ir: IrState,
    clusters: Seq<Seq<u32>>,
    ends: Set<u32>,
    span: Option<nat>,
) -> Seq<Seq<u32>> {
    match span {
        Some(span) => split_clusters(ir, ends, span, clusters),
        None => clusters,
    }
}

/// The number of nodes in all clusters.
pub open spec fn total_size(clusters: Seq<Seq<u32>>) -> nat
    decreases clusters.len(),
{
    if clusters.len() == 0 {
        0
    } else {
        total_size(clusters.drop_last()) + clusters.last().len()
    }
}

pub open spec fn text_view(text: Option<String>) -> Option<Seq<char>> {
    match text {
        Some(text) => Some(text@),
        None => None,
    }
}

/// The claims on a graph whose metadata entry reads as `entry`.
pub open spec fn claims_model(
    shot: Shot,
    order: Seq<u32>,
    claims: Seq<ClaimFacts>,
    query: CapabilityQuery,
    entry: Option<Result<Seq<Seq<char>>, Seq<char>>>,
) -> CapabilityModel {
    let ends = layer_values(shot, order, query.in_cf_body, entry);
    let clusters = layered(
        shot.ir,
        whole_clusters(shot, order, claims, query.in_cf_body),
        ends,
        partition_span(text_view(query.layer_partitions), ends.len()),
    );
    CapabilityModel {
        clusters,
        claimed: total_size(clusters),
        total: order.len(),
        rejected: if query.list_rejected {
            refused(
                claims,
                supported_flags(shot, order, claims, query.in_cf_body),
                query.in_cf_body,
            )
        } else {
            Map::empty()
        },
        ignored_metadata: match entry {
            Some(Err(error)) => if query.in_cf_body {
                None
            } else {
                Some(error)
            },
            _ => None,
        },
    }
}

/// What the metadata entry says.
pub open spec fn entry_of(metadata: Option<String>) -> Option<Result<Seq<Seq<char>>, Seq<char>>> {
    match metadata {
        Some(text) => Some(json_names(text@)),
        None => None,
    }
}

/// What is found in a snapshot.
pub open spec fn inspected(
    shot: Shot,
    query: CapabilityQuery,
) -> Result<InspectionModel, FailureModel> {
    if !has_order(shot.ir) {
        Err(
            FailureModel::Message(
                "optimized graph IR has no topological order: cycle detected in graph"@,
            ),
        )
    } else if shot.nodes.len() == 0 {
        Ok(InspectionModel::Empty)
    } else {
        match query.nodes {
            Err(status) => Err(FailureModel::Status(status)),
            Ok(nodes) => match places_below(nodes@, shot.node_by_ort_id, nodes@.len() as int) {
                Err(failure) => Err(failure),
                Ok(places) => if !facts_complete(places, shot.nodes.len()) {
                    Ok(InspectionModel::Incomplete)
                } else {
                    match query.layer_metadata {
                        Err(status) => if query.in_cf_body {
                            Ok(
                                InspectionModel::Claims(
                                    claims_model(
                                        shot,
                                        order_of(shot.ir),
                                        claims_along(nodes@, places, order_of(shot.ir)),
                                        query,
                                        None,
                                    ),
                                ),
                            )
                        } else {
                            Err(FailureModel::Status(status))
                        },
                        Ok(metadata) => Ok(
                            InspectionModel::Claims(
                                claims_model(
                                    shot,
                                    order_of(shot.ir),
                                    claims_along(nodes@, places, order_of(shot.ir)),
                                    query,
                                    entry_of(metadata),
                                ),
                            ),
                        ),
                    }
                },
            },
        }
    }
}

/// The capability is as the model says; the refused operators are ranked.
pub open spec fn shows(capability: Capability, model: CapabilityModel) -> bool {
    &&& id_rows(capability.clusters@) == model.clusters
    &&& capability.claimed == model.claimed
    &&& capability.total == model.total
    &&& is_ranking(capability.rejected@, model.rejected)
    &&& text_view(capability.ignored_metadata) == model.ignored_metadata
}

/// The outcome is as the model says.
pub open spec fn outcome_shows(
    outcome: Result<Inspection, CapabilityFailure>,
    model: Result<InspectionModel, FailureModel>,
) -> bool {
    match (outcome, model) {
        (Err(failure), Err(expected)) => failure_model(failure) == expected,
        (Ok(Inspection::Empty), Ok(InspectionModel::Empty)) => true,
        (Ok(Inspection::Incomplete), Ok(InspectionModel::Incomplete)) => true,
        (Ok(Inspection::Claims(capability)), Ok(InspectionModel::Claims(expected))) => shows(
            capability,
            expected,
        ),
        _ => false,
    }
}

proof fn lemma_anchor_step(shot: Shot, order: Seq<u32>, k: int)
    requires
        0 <= k < order.len(),
    ensures
        layer_anchors(shot, order.take(k + 1)) == (if anchors_layer(shot.nodes[order[k] as int]) {
            layer_anchors(shot, order.take(k)).push(order[k])
        } else {
            layer_anchors(shot, order.take(k))
        }),
{
    assert(order.take(k + 1).drop_last() =~= order.take(k));
    assert(order.take(k + 1).last() == order[k]);
}

fn find_anchors(snapshot: &OrtGraphSnapshot, order: &Vec<u32>) -> (anchors: Vec<u32>)
    requires
        forall|i: int| 0 <= i < order@.len() ==> #[trigger] order@[i] < snapshot.nodes@.len(),
    ensures
        anchors@ == layer_anchors(shot_of(*snapshot), order@),
{
    let ghost shot = shot_of(*snapshot);
    let mut anchors: Vec<u32> = Vec::new();
    let mut at: usize = 0;
    proof {
        assert(order@.take(0) =~= Seq::<u32>::empty());
    }
    while at < order.len()
        invariant
            at <= order@.len(),
            shot == shot_of(*snapshot),
            forall|i: int| 0 <= i < order@.len() ==> #[trigger] order@[i] < snapshot.nodes@.len(),
            anchors@ == layer_anchors(shot, order@.take(at as int)),
        decreases order@.len() - at,
    {
        proof {
            lemma_anchor_step(shot, order@, at as int);
        }
        if is_decoder_attention_anchor(&snapshot.nodes[order[at] as usize]) {
            anchors.push(order[at]);
        }
        at = at + 1;
    }
    proof {
        assert(order@.take(order@.len() as int) =~= order@);
    }
    anchors
}

/// The values that a list of names marks as layer ends.
pub fn boundaries_by_name(snapshot: &OrtGraphSnapshot, names: &Vec<String>) -> (values: HashSet<
    ValueId,
>)
    requires
        well_formed(*snapshot),
        mirrors(shot_of(*snapshot)),
    ensures
        values@ == named_boundaries(shot_of(*snapshot), texts(names@)),
{
    let ghost shot = shot_of(*snapshot);
    let ghost all = texts(names@);
    let mut values: HashSet<ValueId> = HashSet::new();
    let mut at: usize = 0;
    while at < names.len()
        invariant
            at <= names@.len(),
            well_formed(*snapshot),
            mirrors(shot_of(*snapshot)),
            shot == shot_of(*snapshot),
            all == texts(names@),
            forall|value: u32| #[trigger]
                values@.contains(value) <==> value < shot.values.len() && all.take(
                    at as int,
                ).contains(shot.values[value as int].name)
                    && shot.ir.values[value as int].producer is Some,
        decreases names@.len() - at,
    {
        let ghost before = values@;
        let ghost name = names@[at as int]@;
        match find_value(snapshot, names[at].as_str()) {
            None => {
                proof {
                    assert forall|v: int| 0 <= v < shot.values.len() implies (
                    #[trigger] shot.values[v]).name != name by {}
                }
            },
            Some(value) => {
                proof {
                    let i = choose|i: int|
                        0 <= i < shot.values.len() && (#[trigger] shot.values[i]).name == name;
                    assert(shot.values[i].name == name);
                    assert(value == i);
                }
                if producer(&snapshot.ir, value).is_some() {
                    values.insert(value);
                }
            },
        }
        proof {
            assert(all.take(at + 1) =~= all.take(at as int).push(name));
            assert forall|value: u32| #[trigger] values@.contains(value) <==> value
                < shot.values.len() && all.take(at + 1).contains(shot.values[value as int].name)
                && shot.ir.values[value as int].producer is Some by {
                if value < shot.values.len() {
                    let own = shot.values[value as int].name;
                    let old_list = all.take(at as int);
                    let new_list = all.take(at + 1);
                    if old_list.contains(own) {
                        let j = choose|j: int| 0 <= j < old_list.len() && old_list[j] == own;
                        assert(new_list[j] == own);
                    }
                    if own == name {
                        assert(new_list[at as int] == own);
                    }
                    if new_list.contains(own) {
                        let j = choose|j: int| 0 <= j < new_list.len() && new_list[j] == own;
                        if j < at {
                            assert(old_list[j] == own);
                        }
                    }
                }
            }
        }
        at = at + 1;
    }
    proof {
        assert(all.take(names@.len() as int) =~= all);
        assert(values@ =~= named_boundaries(shot, all));
    }
    values
}

proof fn lemma_total_take(clusters: Seq<Seq<u32>>, k: int)
    requires
        0 <= k <= clusters.len(),
    ensures
        total_size(clusters.take(k)) <= total_size(clusters),
    decreases clusters.len(),
{
    if k < clusters.len() {
        assert(clusters.drop_last().take(k) =~= clusters.take(k));
        lemma_total_take(clusters.drop_last(), k);
    } else {
        assert(clusters.take(k) =~= clusters);
    }
}

proof fn lemma_total_add(a: Seq<Seq<u32>>, b: Seq<Seq<u32>>)
    ensures
        total_size(a + b) == total_size(a) + total_size(b),
    decreases b.len(),
{
    if b.len() == 0 {
        assert(a + b =~= a);
    } else {
        assert((a + b).drop_last() =~= a + b.drop_last());
        lemma_total_add(a, b.drop_last());
    }
}

proof fn lemma_total_flatten(clusters: Seq<Seq<u32>>)
    ensures
        total_size(clusters) == clusters.flatten().len(),
    decreases clusters.len(),
{
    if clusters.len() > 0 {
        lemma_total_flatten(clusters.drop_last());
        clusters.drop_last().lemma_flatten_push(clusters.last());
        assert(clusters.drop_last().push(clusters.last()) =~= clusters);
    }
}

/// Splitting keeps the number of nodes.
pub proof fn lemma_total_split(ir: IrState, ends: Set<u32>, span: nat, clusters: Seq<Seq<u32>>)
    requires
        span > 0,
    ensures
        total_size(split_clusters(ir, ends, span, clusters)) == total_size(clusters),
    decreases clusters.len(),
{
    if clusters.len() > 0 {
        let front = clusters.drop_last();
        lemma_total_split(ir, ends, span, front);
        let parts = cut_parts(ir, ends, span, clusters.last());
        law_split_keeps_nodes(ir, ends, span, clusters.last());
        lemma_total_flatten(parts);
        lemma_total_add(split_clusters(ir, ends, span, front), parts);
    }
}

/// Runs hold no more nodes than are listed.
proof fn lemma_total_runs(order: Seq<u32>, colours: Colours, start: int)
    requires
        0 <= start <= order.len(),
        colours.supported.len() == order.len(),
    ensures
        total_size(run_nodes(order, runs(colours, start))) <= order.len() - start,
    decreases order.len() - start,
{
    law_runs(colours, start);
    if start < order.len() {
        if !colours.supported[start] {
            lemma_total_runs(order, colours, start + 1);
        } else {
            let end = crate::partition::run_end(colours, start, start + 1);
            crate::partition::lemma_run_end(colours, start, start + 1);
            lemma_total_runs(order, colours, end);
            let rest = run_nodes(order, runs(colours, end));
            let first = seq![order.subrange(start, end)];
            assert(run_nodes(order, runs(colours, start)) =~= first + rest);
            lemma_total_add(first, rest);
            assert(first.drop_last() =~= Seq::<Seq<u32>>::empty());
            assert(total_size(first) == end - start) by {
                assert(total_size(first.drop_last()) == 0);
            }
        }
    }
}

pub open spec fn members_below(clusters: Seq<Seq<int>>, k: int) -> Set<int> {
    Set::new(|v: int| exists|c: int| 0 <= c < k && #[trigger] in_cluster(clusters, c, v))
}

/// Disjoint clusters of distinct nodes hold no more nodes than there are.
proof fn lemma_total_tidy(order: Seq<u32>, clusters: Seq<Seq<int>>, k: int)
    requires
        tidy(clusters, order.len() as int),
        ascending(clusters),
        0 <= k <= clusters.len(),
    ensures
        members_below(clusters, k).finite(),
        total_size(cluster_nodes(order, clusters).take(k)) == members_below(clusters, k).len(),
    decreases k,
{
    let nodes = cluster_nodes(order, clusters);
    if k == 0 {
        assert(members_below(clusters, 0) =~= Set::<int>::empty());
    } else {
        lemma_total_tidy(order, clusters, k - 1);
        let front = members_below(clusters, k - 1);
        let last = clusters[k - 1];
        assert(nodes.take(k).drop_last() =~= nodes.take(k - 1));
        assert(nodes.take(k).last().len() == last.len());
        assert(last.no_duplicates());
        last.unique_seq_to_set();
        assert(front.disjoint(last.to_set())) by {
            assert forall|v: int| front.contains(v) implies !last.to_set().contains(v) by {
                let c = choose|c: int| 0 <= c < k - 1 && #[trigger] in_cluster(clusters, c, v);
                if last.to_set().contains(v) {
                    assert(in_cluster(clusters, k - 1, v));
                }
            }
        }
        vstd::set_lib::lemma_set_disjoint_lens(front, last.to_set());
        assert(members_below(clusters, k) =~= front + last.to_set()) by {
            assert forall|v: int| members_below(clusters, k).contains(v) <==> (front
                + last.to_set()).contains(v) by {
                if members_below(clusters, k).contains(v) {
                    let c = choose|c: int| 0 <= c < k && #[trigger] in_cluster(clusters, c, v);
                    if c < k - 1 {
                        assert(front.contains(v));
                    } else {
                        assert(last.to_set().contains(v));
                    }
                }
                if front.contains(v) {
                    let c = choose|c: int| 0 <= c < k - 1 && #[trigger] in_cluster(clusters, c, v);
                    assert(in_cluster(clusters, c, v));
                }
                if last.to_set().contains(v) {
                    assert(in_cluster(clusters, k - 1, v));
                }
            }
        }
    }
}

/// The clusters hold listed nodes, and no more of them than are listed.
pub proof fn lemma_whole_clusters(
    shot: Shot,
    order: Seq<u32>,
    claims: Seq<ClaimFacts>,
    in_body: bool,
)
    requires
        linked(shot.ir),
        is_listing(shot.ir, order),
    ensures
        total_size(whole_clusters(shot, order, claims, in_body)) <= order.len(),
        forall|c: int, i: int|
            0 <= c < whole_clusters(shot, order, claims, in_body).len() && 0 <= i < whole_clusters(
                shot,
                order,
                claims,
                in_body,
            )[c].len() ==> (#[trigger] whole_clusters(shot, order, claims, in_body)[c][i])
                < shot.ir.nodes.len(),
{
    let colours = colours_of(shot, order, claims, in_body);
    let all = whole_clusters(shot, order, claims, in_body);
    if is_mixed_vision(shot, order, claims) {
        law_runs(colours, 0);
        lemma_total_runs(order, colours, 0);
        assert forall|c: int, i: int| 0 <= c < all.len() && 0 <= i < all[c].len() implies (
        #[trigger] all[c][i]) < shot.ir.nodes.len() by {
            let range = runs(colours, 0)[c];
            assert(all[c] == order.subrange(range.0, range.1));
            assert(all[c][i] == order[range.0 + i]);
        }
    } else {
        let adj = forward_rows(shot.ir, order);
        let degree = row_lengths(backward_rows(shot.ir, order));
        let groups = edge_clusters(colours, adj, degree);
        lemma_rows(shot.ir, order);
        assert(in_range(adj)) by {
            assert forall|a: int, i: int|
                0 <= a < adj.len() && 0 <= i < adj[a].len() implies 0 <= #[trigger] adj[a][i]
                < adj.len() by {
                assert(adj[a].contains(adj[a][i]));
            }
        }
        law_clusters_partition_supported(colours, adj, degree);
        lemma_total_tidy(order, groups, groups.len() as int);
        assert(all.take(all.len() as int) =~= all);
        let members = members_below(groups, groups.len() as int);
        vstd::set_lib::lemma_int_range(0, order.len() as int);
        assert(members.subset_of(vstd::set_lib::set_int_range(0, order.len() as int)));
        vstd::set_lib::lemma_len_subset(
            members,
            vstd::set_lib::set_int_range(0, order.len() as int),
        );
        assert forall|c: int, i: int| 0 <= c < all.len() && 0 <= i < all[c].len() implies (
        #[trigger] all[c][i]) < shot.ir.nodes.len() by {
            assert(all[c][i] == order[groups[c][i]]);
            assert(in_cluster(groups, c, groups[c][i]));
        }
    }
}

/// Adds up the sizes of the clusters.
fn count_claimed(clusters: &Vec<Vec<u32>>) -> (count: usize)
    requires
        total_size(id_rows(clusters@)) <= usize::MAX,
    ensures
        count == total_size(id_rows(clusters@)),
{
    let ghost all = id_rows(clusters@);
    let mut count: usize = 0;
    let mut at: usize = 0;
    proof {
        assert(all.take(0) =~= Seq::<Seq<u32>>::empty());
    }
    while at < clusters.len()
        invariant
            at <= clusters@.len(),
            all == id_rows(clusters@),
            total_size(all) <= usize::MAX,
            count == total_size(all.take(at as int)),
        decreases clusters@.len() - at,
    {
        proof {
            assert(all.take(at + 1).drop_last() =~= all.take(at as int));
            assert(all.take(at + 1).last() == clusters@[at as int]@);
            lemma_total_take(all, at + 1);
        }
        count = count + clusters[at].len();
        at = at + 1;
    }
    proof {
        assert(all.take(clusters@.len() as int) =~= all);
    }
    count
}

/// The claims on a graph, given what its metadata entry says.
pub fn claim_nodes(
    snapshot: &OrtGraphSnapshot,
    order: &Vec<u32>,
    claims: &Vec<&ClaimFacts>,
    query: &CapabilityQuery,
    entry: Option<Result<Vec<String>, String>>,
) -> (capability: Capability)
    requires
        well_formed(*snapshot),
        mirrors(shot_of(*snapshot)),
        is_listing(shot_of(*snapshot).ir, order@),
        claims@.len() == order@.len(),
    ensures
        shows(
            capability,
            claims_model(
                shot_of(*snapshot),
                order@,
                facts_of(claims@),
                *query,
                match entry {
                    Some(Ok(names)) => Some(Ok(texts(names@))),
                    Some(Err(error)) => Some(Err(error@)),
                    None => None,
                },
            ),
        ),
{
    let ghost shot = shot_of(*snapshot);
    let ghost facts = facts_of(claims@);
    let in_body: bool = query.in_cf_body;
    let quantized: bool = quantized_decoder(snapshot, order, claims);
    let mixed: bool = mixed_vision(snapshot, order, claims);
    proof {
        law_mirror_links(shot);
    }
    let anchors: Vec<u32> = find_anchors(snapshot, order);
    let mut supported: Vec<bool> = Vec::new();
    let mut float64: Vec<bool> = Vec::new();
    let mut class: Vec<CompilePartitionClass> = Vec::new();
    while supported.len() < order.len()
        invariant
            supported@.len() <= order@.len(),
            float64@.len() == supported@.len(),
            class@.len() == supported@.len(),
            well_formed(*snapshot),
            shot == shot_of(*snapshot),
            is_listing(shot.ir, order@),
            shot.ir.nodes.len() == shot.nodes.len(),
            claims@.len() == order@.len(),
            facts == facts_of(claims@),
            in_body == query.in_cf_body,
            quantized == is_quantized_decoder(shot, order@, facts),
            anchors@ == layer_anchors(shot, order@),
            forall|i: int|
                0 <= i < supported@.len() ==> #[trigger] supported@[i] == supported_flags(
                    shot,
                    order@,
                    facts,
                    in_body,
                )[i],
            forall|i: int|
                0 <= i < float64@.len() ==> #[trigger] float64@[i] == double_flags(shot, order@)[i],
            forall|i: int|
                0 <= i < class@.len() ==> #[trigger] class@[i] == class_flags(
                    shot,
                    order@,
                    facts,
                )[i],
        decreases order@.len() - supported@.len(),
    {
        let at: usize = supported.len();
        let id: u32 = order[at];
        assert(order@[at as int] < shot.nodes.len());
        let op_type: &str = snapshot.nodes[id as usize].op_type.as_str();
        let claim: bool = !in_body && (claims[at].claimable || (quantized && (same_text(
            op_type,
            "Range",
        ) || same_text(op_type, "Tile"))));
        let double: bool = snapshot_node_uses_float64(snapshot, id);
        let kind: CompilePartitionClass = if anchors.len() > 0 {
            claims[at].shape_safety.partition_class()
        } else {
            CompilePartitionClass::Shapeless
        };
        supported.push(claim);
        float64.push(double);
        class.push(kind);
    }
    proof {
        assert(supported@ =~= supported_flags(shot, order@, facts, in_body));
        assert(float64@ =~= double_flags(shot, order@));
        assert(class@ =~= class_flags(shot, order@, facts));
        lemma_whole_clusters(shot, order@, facts, in_body);
    }
    let rejected: Vec<Rejection> = if query.list_rejected {
        collect_rejections(claims, &supported, in_body)
    } else {
        Vec::new()
    };
    let whole: Vec<Vec<u32>> = if mixed {
        build_contiguous_clusters(
            order.as_slice(),
            supported.as_slice(),
            float64.as_slice(),
            class.as_slice(),
        )
    } else {
        build_convex_clusters(
            &snapshot.ir,
            order.as_slice(),
            supported.as_slice(),
            float64.as_slice(),
            class.as_slice(),
        )
    };
    let ghost whole_rows = id_rows(whole@);
    assert(whole_rows == whole_clusters(shot, order@, facts, in_body));
    let mut ignored_metadata: Option<String> = None;
    let ends: HashSet<ValueId> = if in_body {
        HashSet::new()
    } else {
        match entry {
            Some(Ok(names)) => boundaries_by_name(snapshot, &names),
            Some(Err(error)) => {
                ignored_metadata = Some(error);
                HashSet::new()
            },
            None => infer_layer_boundary_values(
                &snapshot.ir,
                order.as_slice(),
                anchors.as_slice(),
            ),
        }
    };
    let setting: Option<&str> = match &query.layer_partitions {
        Some(text) => Some(text.as_str()),
        None => None,
    };
    let span: Option<usize> = select_layer_partition_span(setting, ends.len());
    proof {
        crate::span::law_span_positive(text_view(query.layer_partitions), ends@.len());
        assert forall|c: int, i: int|
            0 <= c < whole@.len() && 0 <= i < whole@[c]@.len() implies #[trigger] whole@[c]@[i]
            < ir_state(snapshot.ir).nodes.len() by {
            assert(whole_rows[c][i] == whole@[c]@[i]);
        }
    }
    let clusters: Vec<Vec<u32>> = match span {
        Some(span) => {
            proof {
                lemma_total_split(shot.ir, ends@, span as nat, whole_rows);
            }
            split_annotated_layer_clusters(&snapshot.ir, &whole, &ends, span)
        },
        None => whole,
    };
    let claimed: usize = count_claimed(&clusters);
    Capability { clusters, claimed, total: order.len(), rejected, ignored_metadata }
}

fn all_located(places: &HashMap<u32, usize>, count: usize) -> (complete: bool)
    requires
        count <= u32::MAX,
    ensures
        complete == facts_complete(places@, count as nat),
{
    let mut id: usize = 0;
    while id < count
        invariant
            id <= count,
            count <= u32::MAX,
            forall|n: u32| n < id ==> #[trigger] places@.contains_key(n),
        decreases count - id,
    {
        if !places.contains_key(&(id as u32)) {
            assert(!places@.contains_key(id as u32));
            return false;
        }
        id = id + 1;
    }
    true
}

/// Inspects a snapshot.
pub fn inspect(snapshot: &OrtGraphSnapshot, query: &CapabilityQuery) -> (outcome: Result<
    Inspection,
    CapabilityFailure,
>)
    requires
        well_formed(*snapshot),
        mirrors(shot_of(*snapshot)),
    ensures
        outcome_shows(outcome, inspected(shot_of(*snapshot), *query)),
{
    let ghost shot = shot_of(*snapshot);
    let order: Vec<u32> = match topological_order(&snapshot.ir) {
        Err(failure) => {
            let text: String = join2(
                "optimized graph IR has no topological order: ",
                failure.as_str(),
            );
            proof {
                reveal_strlit("optimized graph IR has no topological order: ");
                reveal_strlit("cycle detected in graph");
                reveal_strlit(
                    "optimized graph IR has no topological order: cycle detected in graph",
                );
                assert(text@
                    =~= "optimized graph IR has no topological order: cycle detected in graph"@);
                assert(!has_order(shot.ir));
            }
            return Err(CapabilityFailure::Message(text));
        },
        Ok(order) => order,
    };
    proof {
        lemma_order_unique(shot.ir, order@);
    }
    if order.len() == 0 {
        return Ok(Inspection::Empty);
    }
    let nodes: &Vec<RawClaimNode> = match &query.nodes {
        Err(status) => {
            return Err(CapabilityFailure::Status(*status));
        },
        Ok(nodes) => nodes,
    };
    let places: HashMap<u32, usize> = match locate_facts(nodes, snapshot) {
        Err(failure) => {
            return Err(failure);
        },
        Ok(places) => places,
    };
    if !all_located(&places, snapshot.nodes.len()) {
        return Ok(Inspection::Incomplete);
    }
    proof {
        law_mirror_links(shot);
        lemma_places(nodes@, shot.node_by_ort_id, 0, nodes@.len() as int);
    }
    let mut claims: Vec<&ClaimFacts> = Vec::new();
    while claims.len() < order.len()
        invariant
            claims@.len() <= order@.len(),
            ir_order(shot.ir, order@),
            shot.ir.nodes.len() == shot.nodes.len(),
            facts_complete(places@, shot.nodes.len()),
            forall|id: u32| #[trigger] places@.contains_key(id) ==> places@[id] < nodes@.len(),
            forall|i: int|
                0 <= i < claims@.len() ==> *(#[trigger] claims@[i])
                    == nodes@[places@[order@[i]] as int].facts,
        decreases order@.len() - claims@.len(),
    {
        let id: u32 = order[claims.len()];
        assert(places@.contains_key(id));
        match places.get(&id) {
            Some(place) => {
                claims.push(&nodes[*place].facts);
            },
            None => {},
        }
    }
    proof {
        assert(facts_of(claims@) =~= claims_along(nodes@, places@, order@));
    }
    let entry: Option<Result<Vec<String>, String>> = match &query.layer_metadata {
        Err(status) => {
            if !query.in_cf_body {
                return Err(CapabilityFailure::Status(*status));
            }
            None
        },
        Ok(None) => None,
        Ok(Some(text)) => Some(parse_json_names(text.as_str())),
    };
    Ok(Inspection::Claims(claim_nodes(snapshot, &order, &claims, query, entry)))
}

/// What a graph that was read over the ABI amounts to.
pub open spec fn graph_inspected(
    raw: Option<RawGraph>,
    query: CapabilityQuery,
) -> Result<InspectionModel, FailureModel> {
    match raw {
        None => Err(FailureModel::Message("ORT supplied a null graph"@)),
        Some(graph) => match captured(graph) {
            Err(failure) => Err(FailureModel::Message(failure)),
            Ok(shot) => inspected(shot, query),
        },
    }
}

/// Decides which nodes of a graph are claimed.
pub fn get_capability(raw: Option<&RawGraph>, query: &CapabilityQuery) -> (outcome: Result<
    Inspection,
    CapabilityFailure,
>)
    requires
        raw matches Some(graph) ==> fits(*graph),
    ensures
        outcome_shows(
            outcome,
            graph_inspected(
                match raw {
                    Some(graph) => Some(*graph),
                    None => None,
                },
                *query,
            ),
        ),
{
    match OrtGraphSnapshot::from_ort(raw) {
        Err(failure) => Err(CapabilityFailure::Message(failure)),
        Ok(snapshot) => inspect(&snapshot, query),
    }
}

} // verus!
