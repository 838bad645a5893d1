//! Capture of an optimized graph into an owned snapshot.
//!
//! Initializer metadata is captured here; the bytes are copied later, when a plan is built.

use std::collections::HashMap;

use vstd::hash_map::StringHashMap;
use vstd::prelude::*;
use vstd::string::StringExecFns;

use crate::ir::{
    add_input, add_output, clone_graph, create_named_value, import_opset, insert_node,
    insert_subgraph, intern_symbol, ir_state, is_known_dtype, known_dtype, mark_shape_unknown,
    mark_type_unknown, new_graph, normal_domain, normalize_domain, empty_state, IrDim, IrState,
    NodeId, ValueId,
};
use crate::raw_graph::{
    fits, lemma_nodes_fit, lemma_nodes_weight_split, lemma_slots_weight_split, lemma_subgraphs_fit,
    node_fits, node_weight, nodes_fit, nodes_weight, part_weight, slot_weight, slots_weight,
    subgraphs_fit, RawGraph, RawNode, RawSubgraph, RawTensor, RawType, RawValueInfo,
};
use crate::snapshot::{
    declare_value, dim_shots, entries_distinct, entries_well_formed, initializer_agrees, lower_dims,
    names_index, present, shot_of, shot_with_node, shot_with_subgraph, shot_with_value, slots_live,
    subgraph_map, tables_agree, value_dtype, value_named, value_shape, value_shots, versions_ascend,
    well_formed, DimShot, DimensionMetadata, InitializerMetadata, NodeMetadata, NodeShot,
    OrtGraphSnapshot, Shot, SubgraphEntry, TensorMetadata, TensorShot, ValueMetadata, ValueShot,
    ValueTypeKind,
};
use crate::snapshot_laws::{law_capture_mirrors, mirrors};
use crate::text::{
    decimal, decimal_text, join3, quoted, quoted_text, same_text, signed_decimal, signed_text,
};

verus! {

broadcast use vstd::std_specs::hash::group_hash_axioms;

/// The name given to a dimension that has neither a size nor a name.
pub open spec fn unknown_dim_name(value_name: Seq<char>, index: int) -> Seq<char> {
    "__ort_unknown_"@ + value_name + "_"@ + decimal(index as nat)
}

/// A dimension: its size, or its symbol.
pub open spec fn dim_of(tensor: RawTensor, value_name: Seq<char>, index: int) -> DimShot {
    if tensor.dims@[index] >= 0 {
        DimShot::Static(tensor.dims@[index] as usize)
    } else if index < tensor.symbols@.len() && tensor.symbols@[index]@.len() > 0 {
        DimShot::Symbolic(tensor.symbols@[index]@)
    } else {
        DimShot::Symbolic(unknown_dim_name(value_name, index))
    }
}

/// A tensor type; an element type number that the IR does not know is left open.
pub open spec fn tensor_of(tensor: RawTensor, value_name: Seq<char>) -> TensorShot {
    TensorShot {
        dtype: if 1 <= tensor.dtype <= 26 {
            Some(tensor.dtype as i32)
        } else {
            None
        },
        shape: Some(Seq::new(tensor.dims@.len(), |i: int| dim_of(tensor, value_name, i))),
    }
}

/// What is recorded of a value, or why it cannot be.
pub open spec fn metadata_of(ty: RawType, name: Seq<char>) -> Result<ValueShot, Seq<char>> {
    match ty {
        RawType::Unreadable => Ok(
            ValueShot { name, kind: ValueTypeKind::Unknown, tensor: None },
        ),
        RawType::Other(code) => Ok(
            ValueShot {
                name,
                kind: if code == 2 {
                    ValueTypeKind::Sequence
                } else if code == 6 {
                    ValueTypeKind::Optional
                } else {
                    ValueTypeKind::Other
                },
                tensor: None,
            },
        ),
        RawType::Tensor(Err(failure)) => Err(failure@),
        RawType::Tensor(Ok(tensor)) => Ok(
            ValueShot { name, kind: ValueTypeKind::Tensor, tensor: Some(tensor_of(tensor, name)) },
        ),
    }
}

/// The value behind a slot. A name seen before stands for the same value; a missing handle or an
/// empty name stands for none.
pub open spec fn ensure_slot(
    shot: Shot,
    slot: Option<RawValueInfo>,
) -> Result<(Shot, Option<u32>), Seq<char>> {
    match slot {
        None => Ok((shot, None)),
        Some(info) => match info.name {
            Err(failure) => Err(failure@),
            Ok(name) => if name@.len() == 0 {
                Ok((shot, None))
            } else {
                match value_named(shot.values, name@) {
                    Some(value) => Ok((shot, Some(value))),
                    None => match metadata_of(info.ty, name@) {
                        Err(failure) => Err(failure),
                        Ok(value) => Ok(
                            (shot_with_value(shot, value), Some(shot.values.len() as u32)),
                        ),
                    },
                }
            },
        },
    }
}

/// The values behind a list of slots.
pub open spec fn ensure_slots(
    shot: Shot,
    slots: Seq<Option<RawValueInfo>>,
) -> Result<(Shot, Seq<Option<u32>>), Seq<char>>
    decreases slots.len(),
{
    if slots.len() == 0 {
        Ok((shot, Seq::empty()))
    } else {
        match ensure_slots(shot, slots.drop_last()) {
            Err(failure) => Err(failure),
            Ok((before, ids)) => match ensure_slot(before, slots.last()) {
                Err(failure) => Err(failure),
                Ok((after, id)) => Ok((after, ids.push(id))),
            },
        }
    }
}

/// The values behind a list of slots that may not have been readable.
pub open spec fn ensure_part(
    shot: Shot,
    part: Result<Vec<Option<RawValueInfo>>, String>,
) -> Result<(Shot, Seq<Option<u32>>), Seq<char>> {
    match part {
        Err(failure) => Err(failure@),
        Ok(slots) => ensure_slots(shot, slots@),
    }
}

/// The declared operator sets, or the first that is invalid or contradicts an earlier one.
pub open spec fn import_opsets(
    ir: IrState,
    opsets: Seq<(String, i64)>,
) -> Result<IrState, Seq<char>>
    decreases opsets.len(),
{
    if opsets.len() == 0 {
        Ok(ir)
    } else {
        match import_opsets(ir, opsets.drop_last()) {
            Err(failure) => Err(failure),
            Ok(before) => {
                let domain = normal_domain(opsets.last().0@);
                let version = opsets.last().1;
                if version <= 0 {
                    Err(
                        "ORT reported invalid opset version "@ + signed_decimal(version as int)
                            + " for "@ + quoted_text(domain),
                    )
                } else if before.opsets.contains_key(domain) && before.opsets[domain] != version {
                    Err(
                        "ORT reported conflicting opset versions "@ + decimal(
                            before.opsets[domain] as nat,
                        ) + " and "@ + decimal(version as nat) + " for "@ + quoted_text(domain),
                    )
                } else {
                    Ok(
                        IrState {
                            opsets: before.opsets.insert(domain, version as u64),
                            ..before
                        },
                    )
                }
            },
        }
    }
}

/// The record of a node whose slots are known.
pub open spec fn node_of(
    node: RawNode,
    input_slots: Seq<Option<u32>>,
    output_slots: Seq<Option<u32>>,
) -> Result<NodeShot, Seq<char>> {
    match node.id {
        Err(failure) => Err(failure@),
        Ok(ort_node_id) => match node.name {
            Err(failure) => Err(failure@),
            Ok(name) => match node.domain {
                Err(failure) => Err(failure@),
                Ok(domain) => match node.op_type {
                    Err(failure) => Err(failure@),
                    Ok(op_type) => match node.since_version {
                        Err(failure) => Err(failure@),
                        Ok(since_version) => Ok(
                            NodeShot {
                                ort_node_id,
                                name: name@,
                                domain: normal_domain(domain@),
                                op_type: op_type@,
                                since_version,
                                input_slots,
                                output_slots,
                            },
                        ),
                    },
                },
            },
        },
    }
}

/// The snapshot with a node's bodies attached.
pub open spec fn capture_bodies(
    shot: Shot,
    node: u32,
    list: Seq<RawSubgraph>,
) -> Result<Shot, Seq<char>>
    decreases list,
{
    if list.len() == 0 {
        Ok(shot)
    } else {
        match capture_bodies(shot, node, list.drop_last()) {
            Err(failure) => Err(failure),
            Ok(before) => match list.last().graph {
                None => Err("ORT returned an invalid control-flow subgraph"@),
                Some(graph) => if list.last().attribute@.len() == 0 {
                    Err("ORT returned an invalid control-flow subgraph"@)
                } else {
                    match captured(*graph) {
                        Err(failure) => Err(failure),
                        Ok(body) => Ok(
                            shot_with_subgraph(before, node, list.last().attribute@, body),
                        ),
                    }
                },
            },
        }
    }
}

/// The snapshot with one more node.
pub open spec fn capture_one(shot: Shot, node: RawNode) -> Result<Shot, Seq<char>>
    decreases node,
{
    match ensure_part(shot, node.inputs) {
        Err(failure) => Err(failure),
        Ok((first, input_slots)) => match ensure_part(first, node.outputs) {
            Err(failure) => Err(failure),
            Ok((second, output_slots)) => match node_of(node, input_slots, output_slots) {
                Err(failure) => Err(failure),
                Ok(record) => match node.subgraphs {
                    Err(failure) => Err(failure@),
                    Ok(list) => capture_bodies(
                        shot_with_node(second, record),
                        second.nodes.len() as u32,
                        list@,
                    ),
                },
            },
        },
    }
}

/// The snapshot with more nodes.
pub open spec fn capture_all(shot: Shot, nodes: Seq<Option<RawNode>>) -> Result<Shot, Seq<char>>
    decreases nodes,
{
    if nodes.len() == 0 {
        Ok(shot)
    } else {
        match capture_all(shot, nodes.drop_last()) {
            Err(failure) => Err(failure),
            Ok(before) => match nodes.last() {
                None => Err("ORT graph contains a null node"@),
                Some(node) => capture_one(before, node),
            },
        }
    }
}

/// Nothing captured yet.
pub open spec fn empty_shot() -> Shot {
    Shot {
        ir: empty_state(),
        ir_version: 0,
        nodes: Seq::empty(),
        values: Seq::empty(),
        node_by_ort_id: Map::empty(),
        inputs: Seq::empty(),
        outputs: Seq::empty(),
        initializers: Set::empty(),
        versions: Map::empty(),
        subgraphs: Map::empty(),
    }
}

/// The versions of a graph.
pub open spec fn capture_versions(raw: RawGraph) -> Result<Shot, Seq<char>> {
    match raw.ir_version {
        Err(failure) => Err(failure@),
        Ok(ir_version) => match raw.opsets {
            Err(failure) => Err(failure@),
            Ok(opsets) => match import_opsets(empty_state(), opsets@) {
                Err(failure) => Err(failure),
                Ok(ir) => Ok(Shot { ir, ir_version, ..empty_shot() }),
            },
        },
    }
}

/// The snapshot with its inputs recorded; the IR lists those that are present.
pub open spec fn with_inputs(shot: Shot, slots: Seq<Option<u32>>) -> Shot {
    Shot { ir: IrState { inputs: present(slots), ..shot.ir }, inputs: slots, ..shot }
}

/// The snapshot with its outputs recorded; the IR lists those that are present.
pub open spec fn with_outputs(shot: Shot, slots: Seq<Option<u32>>) -> Shot {
    Shot { ir: IrState { outputs: present(slots), ..shot.ir }, outputs: slots, ..shot }
}

/// The snapshot with the boundary of a graph recorded.
pub open spec fn capture_boundary(shot: Shot, raw: RawGraph) -> Result<Shot, Seq<char>> {
    match ensure_part(shot, raw.inputs) {
        Err(failure) => Err(failure),
        Ok((first, inputs)) => match ensure_part(with_inputs(first, inputs), raw.outputs) {
            Err(failure) => Err(failure),
            Ok((second, outputs)) => match ensure_part(
                with_outputs(second, outputs),
                raw.initializers,
            ) {
                Err(failure) => Err(failure),
                Ok((third, initializers)) => Ok(
                    Shot { initializers: present(initializers).to_set(), ..third },
                ),
            },
        },
    }
}

/// The snapshot of a graph, or the first failure in reading order.
pub open spec fn captured(raw: RawGraph) -> Result<Shot, Seq<char>>
    decreases raw,
{
    match capture_versions(raw) {
        Err(failure) => Err(failure),
        Ok(first) => match capture_boundary(first, raw) {
            Err(failure) => Err(failure),
            Ok(second) => match raw.nodes {
                Err(failure) => Err(failure@),
                Ok(nodes) => capture_all(second, nodes@),
            },
        },
    }
}

/// Entries of the IR so far.
pub open spec fn load(shot: Shot) -> int {
    shot.ir.values.len() + shot.ir.nodes.len() + shot.ir.next_symbol
}

fn tensor_shape(tensor: &RawTensor, value_name: &str) -> (dims: Vec<DimensionMetadata>)
    ensures
        Some(dim_shots(dims@)) == tensor_of(*tensor, value_name@).shape,
{
    let mut dims: Vec<DimensionMetadata> = Vec::new();
    while dims.len() < tensor.dims.len()
        invariant
            dims@.len() <= tensor.dims@.len(),
            forall|i: int|
                0 <= i < dims@.len() ==> (#[trigger] dims@[i])@ == dim_of(*tensor, value_name@, i),
        decreases tensor.dims@.len() - dims@.len(),
    {
        let index: usize = dims.len();
        let dimension: i64 = tensor.dims[index];
        if dimension >= 0 {
            dims.push(DimensionMetadata::Static(dimension as usize));
        } else if index < tensor.symbols.len() && !tensor.symbols[index].as_str().is_empty() {
            dims.push(DimensionMetadata::Symbolic(tensor.symbols[index].clone()));
        } else {
            let mut name: String = join3("__ort_unknown_", value_name, "_");
            name.append(decimal_text(index as u64).as_str());
            dims.push(DimensionMetadata::Symbolic(name));
        }
    }
    proof {
        assert(dim_shots(dims@) =~= Seq::new(
            tensor.dims@.len(),
            |i: int| dim_of(*tensor, value_name@, i),
        ));
    }
    dims
}

/// What is recorded of a value that was not seen before.
fn value_metadata(ty: &RawType, value_name: &str) -> (metadata: Result<ValueMetadata, String>)
    ensures
        match metadata {
            Ok(value) => metadata_of(*ty, value_name@) == Ok::<ValueShot, Seq<char>>(value@),
            Err(failure) => metadata_of(*ty, value_name@) == Err::<ValueShot, Seq<char>>(failure@),
        },
{
    match ty {
        RawType::Unreadable => Ok(
            ValueMetadata {
                name: value_name.to_owned(),
                type_kind: ValueTypeKind::Unknown,
                tensor: None,
            },
        ),
        RawType::Other(code) => {
            let type_kind: ValueTypeKind = if *code == 2 {
                ValueTypeKind::Sequence
            } else if *code == 6 {
                ValueTypeKind::Optional
            } else {
                ValueTypeKind::Other
            };
            Ok(ValueMetadata { name: value_name.to_owned(), type_kind, tensor: None })
        },
        RawType::Tensor(Err(failure)) => Err(failure.clone()),
        RawType::Tensor(Ok(tensor)) => {
            let dtype: Option<i32> = if tensor.dtype <= 0x7fff_ffff && is_known_dtype(
                tensor.dtype as i32,
            ) {
                Some(tensor.dtype as i32)
            } else {
                None
            };
            let shape: Vec<DimensionMetadata> = tensor_shape(tensor, value_name);
            let value = ValueMetadata {
                name: value_name.to_owned(),
                type_kind: ValueTypeKind::Tensor,
                tensor: Some(TensorMetadata { dtype, shape: Some(shape) }),
            };
            proof {
                assert(value@.tensor->0 =~= tensor_of(*tensor, value_name@));
            }
            Ok(value)
        },
    }
}

/// Lowers dimensions to the IR.
fn ir_dims(graph: &mut onnx_runtime_ir::Graph, dims: &Vec<DimensionMetadata>) -> (ids: Vec<IrDim>)
    requires
        ir_state(*old(graph)).next_symbol + dims@.len() < u32::MAX,
    ensures
        lower_dims(ir_state(*old(graph)), dim_shots(dims@)) == (ir_state(*final(graph)), ids@),
        ir_state(*final(graph)).next_symbol <= ir_state(*old(graph)).next_symbol + dims@.len(),
        ir_state(*final(graph)) == (IrState {
            symbols: ir_state(*final(graph)).symbols,
            next_symbol: ir_state(*final(graph)).next_symbol,
            ..ir_state(*old(graph))
        }),
{
    let ghost start = ir_state(*graph);
    let ghost shots = dim_shots(dims@);
    let mut ids: Vec<IrDim> = Vec::new();
    proof {
        assert(shots.take(0) =~= Seq::<DimShot>::empty());
    }
    while ids.len() < dims.len()
        invariant
            ids@.len() <= dims@.len(),
            shots == dim_shots(dims@),
            start.next_symbol + dims@.len() < u32::MAX,
            lower_dims(start, shots.take(ids@.len() as int)) == (ir_state(*graph), ids@),
            ir_state(*graph).next_symbol <= start.next_symbol + ids@.len(),
            ir_state(*graph) == (IrState {
                symbols: ir_state(*graph).symbols,
                next_symbol: ir_state(*graph).next_symbol,
                ..start
            }),
        decreases dims@.len() - ids@.len(),
    {
        let at: usize = ids.len();
        proof {
            assert(shots.take(at + 1).drop_last() =~= shots.take(at as int));
            assert(shots.take(at + 1).last() == dims@[at as int]@);
        }
        match &dims[at] {
            DimensionMetadata::Static(size) => {
                ids.push(IrDim::Static(*size));
            },
            DimensionMetadata::Symbolic(name) => {
                let symbol: u32 = intern_symbol(graph, name.as_str());
                ids.push(IrDim::Symbolic(symbol));
            },
        }
    }
    proof {
        assert(shots.take(dims@.len() as int) =~= shots);
    }
    ids
}

proof fn lemma_known_dtype(ty: RawType, name: Seq<char>)
    ensures
        metadata_of(ty, name) matches Ok(value) ==> {
            &&& value.name == name
            &&& value_dtype(value) matches Some(dtype) ==> known_dtype(dtype)
            &&& value_shape(value) matches Some(dims) ==> (ty matches RawType::Tensor(Ok(tensor))
                && dims.len() == tensor.dims@.len())
        },
{
}

impl OrtGraphSnapshot {
    /// Nothing captured yet.
    fn empty() -> (snapshot: Self)
        ensures
            well_formed(snapshot),
            shot_of(snapshot) == empty_shot(),
    {
        let snapshot = OrtGraphSnapshot {
            ir: new_graph(),
            onnx_ir_version: 0,
            nodes: Vec::new(),
            values: Vec::new(),
            node_by_ort_id: HashMap::new(),
            value_by_name: StringHashMap::new(),
            graph_input_slots: Vec::new(),
            graph_output_slots: Vec::new(),
            initializers: HashMap::new(),
            node_schema_versions: StringHashMap::new(),
            subgraphs: Vec::new(),
        };
        proof {
            assert(shot_of(snapshot) =~= empty_shot());
        }
        snapshot
    }

    /// The IR's declaration of a value.
    fn declare(&mut self, metadata: &ValueMetadata) -> (value: u32)
        requires
            ir_state(old(self).ir).compact,
            ir_state(old(self).ir).values.len() <= u32::MAX,
            ir_state(old(self).ir).next_symbol + (match value_shape(metadata@) {
                Some(dims) => dims.len(),
                None => 0,
            }) < u32::MAX,
            value_dtype(metadata@) matches Some(dtype) ==> known_dtype(dtype),
        ensures
            value == ir_state(old(self).ir).values.len(),
            ir_state(final(self).ir) == declare_value(ir_state(old(self).ir), metadata@),
            ir_state(final(self).ir).next_symbol <= ir_state(old(self).ir).next_symbol + (
            match value_shape(metadata@) {
                Some(dims) => dims.len(),
                None => 0,
            }),
            ir_state(final(self).ir).compact,
            *final(self) == (OrtGraphSnapshot { ir: final(self).ir, ..*old(self) }),
    {
        let mut dtype: i32 = 0;
        let mut type_known: bool = false;
        let mut shape_known: bool = false;
        let mut shape: Vec<IrDim> = Vec::new();
        let ghost start = ir_state(self.ir);
        proof {
            assert(shape@ =~= Seq::<IrDim>::empty());
            assert(lower_dims(start, Seq::<DimShot>::empty()) == (start, Seq::<IrDim>::empty()));
        }
        match &metadata.tensor {
            Some(tensor) => {
                match tensor.dtype {
                    Some(known) => {
                        dtype = known;
                        type_known = true;
                    },
                    None => {},
                }
                match &tensor.shape {
                    Some(dims) => {
                        shape = ir_dims(&mut self.ir, dims);
                        shape_known = true;
                    },
                    None => {},
                }
            },
            None => {},
        }
        let value: u32 = create_named_value(&mut self.ir, metadata.name.clone(), dtype, &shape);
        if !type_known {
            mark_type_unknown(&mut self.ir, value);
        }
        if !shape_known {
            mark_shape_unknown(&mut self.ir, value);
        }
        proof {
            assert(ir_state(self.ir) =~= declare_value(start, metadata@));
        }
        value
    }

    /// The value behind a slot.
    fn ensure_value(&mut self, slot: &Option<RawValueInfo>) -> (value: Result<
        Option<ValueId>,
        String,
    >)
        requires
            well_formed(*old(self)),
            load(shot_of(*old(self))) + slot_weight(*slot) < u32::MAX,
        ensures
            match value {
                Ok(id) => {
                    &&& well_formed(*final(self))
                    &&& ensure_slot(shot_of(*old(self)), *slot) == Ok::<
                        (Shot, Option<u32>),
                        Seq<char>,
                    >((shot_of(*final(self)), id))
                    &&& load(shot_of(*final(self))) <= load(shot_of(*old(self))) + slot_weight(
                        *slot,
                    )
                    &&& shot_of(*old(self)).values.len() <= shot_of(*final(self)).values.len()
                    &&& id is Some ==> id->0 < shot_of(*final(self)).values.len()
                    &&& final(self).subgraphs == old(self).subgraphs
                },
                Err(failure) => ensure_slot(shot_of(*old(self)), *slot) == Err::<
                    (Shot, Option<u32>),
                    Seq<char>,
                >(failure@),
            },
    {
        let ghost start = *self;
        let ghost shot = shot_of(*self);
        match slot {
            None => Ok(None),
            Some(info) => match &info.name {
                Err(failure) => Err(failure.clone()),
                Ok(name) => {
                    if name.as_str().is_empty() {
                        return Ok(None);
                    }
                    match self.value_by_name.get(name.as_str()) {
                        Some(value) => {
                            proof {
                                lemma_named(self.value_by_name@, shot.values, name@);
                            }
                            return Ok(Some(*value));
                        },
                        None => {},
                    }
                    proof {
                        lemma_not_named(self.value_by_name@, shot.values, name@);
                        lemma_known_dtype(info.ty, name@);
                    }
                    match value_metadata(&info.ty, name.as_str()) {
                        Err(failure) => Err(failure),
                        Ok(metadata) => {
                            let value: u32 = self.declare(&metadata);
                            self.value_by_name.insert(name.clone(), value);
                            let ghost meta = metadata@;
                            self.values.push(metadata);
                            proof {
                                assert(value_shots(self.values@) =~= shot.values.push(meta));
                                assert(shot_of(*self) =~= shot_with_value(shot, meta));
                                lemma_declared(shot.ir, meta);
                                lemma_names_push(start.value_by_name@, shot.values, meta);
                                lemma_tables_after_value(start, *self);
                            }
                            Ok(Some(value))
                        },
                    }
                },
            },
        }
    }

    /// The values behind a list of slots.
    fn ensure_values(
        &mut self,
        part: &Result<Vec<Option<RawValueInfo>>, String>,
    ) -> (values: Result<Vec<Option<ValueId>>, String>)
        requires
            well_formed(*old(self)),
            load(shot_of(*old(self))) + part_weight(*part) < u32::MAX,
        ensures
            match values {
                Ok(ids) => {
                    &&& well_formed(*final(self))
                    &&& ensure_part(shot_of(*old(self)), *part) == Ok::<
                        (Shot, Seq<Option<u32>>),
                        Seq<char>,
                    >((shot_of(*final(self)), ids@))
                    &&& load(shot_of(*final(self))) <= load(shot_of(*old(self))) + part_weight(
                        *part,
                    )
                    &&& shot_of(*old(self)).values.len() <= shot_of(*final(self)).values.len()
                    &&& slots_live(ids@, shot_of(*final(self)).values.len() as int)
                    &&& ids@.len() <= part_weight(*part)
                    &&& final(self).subgraphs == old(self).subgraphs
                },
                Err(failure) => ensure_part(shot_of(*old(self)), *part) == Err::<
                    (Shot, Seq<Option<u32>>),
                    Seq<char>,
                >(failure@),
            },
    {
        let ghost shot = shot_of(*self);
        let ghost bodies = self.subgraphs;
        match part {
            Err(failure) => Err(failure.clone()),
            Ok(slots) => {
                let mut ids: Vec<Option<u32>> = Vec::new();
                proof {
                    assert(slots@.take(0) =~= Seq::<Option<RawValueInfo>>::empty());
                    assert(ids@ =~= Seq::<Option<u32>>::empty());
                }
                while ids.len() < slots.len()
                    invariant
                        ids@.len() <= slots@.len(),
                        well_formed(*self),
                        self.subgraphs == bodies,
                        bodies == old(self).subgraphs,
                        shot == shot_of(*old(self)),
                        *part == Ok::<Vec<Option<RawValueInfo>>, String>(*slots),
                        load(shot) + slots_weight(slots@) < u32::MAX,
                        ensure_slots(shot, slots@.take(ids@.len() as int)) == Ok::<
                            (Shot, Seq<Option<u32>>),
                            Seq<char>,
                        >((shot_of(*self), ids@)),
                        load(shot_of(*self)) <= load(shot) + slots_weight(
                            slots@.take(ids@.len() as int),
                        ),
                        shot.values.len() <= shot_of(*self).values.len(),
                        slots_live(ids@, shot_of(*self).values.len() as int),
                    decreases slots@.len() - ids@.len(),
                {
                    let at: usize = ids.len();
                    proof {
                        assert(slots@.take(at + 1).drop_last() =~= slots@.take(at as int));
                        assert(slots@.take(at + 1).last() == slots@[at as int]);
                        lemma_slots_weight_split(slots@, at + 1);
                    }
                    match self.ensure_value(&slots[at]) {
                        Err(failure) => {
                            proof {
                                lemma_slots_fail(shot, slots@, at + 1);
                            }
                            return Err(failure);
                        },
                        Ok(id) => {
                            ids.push(id);
                        },
                    }
                }
                proof {
                    assert(slots@.take(ids@.len() as int) =~= slots@);
                    lemma_slots_weight_split(slots@, slots@.len() as int);
                }
                Ok(ids)
            },
        }
    }
}

proof fn lemma_slots_fail(shot: Shot, slots: Seq<Option<RawValueInfo>>, k: int)
    requires
        0 <= k <= slots.len(),
        ensure_slots(shot, slots.take(k)) is Err,
    ensures
        ensure_slots(shot, slots) == ensure_slots(shot, slots.take(k)),
    decreases slots.len(),
{
    if k < slots.len() {
        assert(slots.drop_last().take(k) =~= slots.take(k));
        lemma_slots_fail(shot, slots.drop_last(), k);
    } else {
        assert(slots.take(k) =~= slots);
    }
}

proof fn lemma_named(names: Map<Seq<char>, u32>, values: Seq<ValueShot>, name: Seq<char>)
    requires
        names_index(names, values),
        names.contains_key(name),
    ensures
        value_named(values, name) == Some(names[name]),
{
    let i = names[name] as int;
    assert(values[i].name == name);
    let j = choose|j: int| 0 <= j < values.len() && (#[trigger] values[j]).name == name;
    assert(names[values[j].name] == j);
}

proof fn lemma_not_named(names: Map<Seq<char>, u32>, values: Seq<ValueShot>, name: Seq<char>)
    requires
        names_index(names, values),
        !names.contains_key(name),
    ensures
        value_named(values, name) is None,
{
    if exists|i: int| 0 <= i < values.len() && (#[trigger] values[i]).name == name {
        let i = choose|i: int| 0 <= i < values.len() && (#[trigger] values[i]).name == name;
        assert(names.contains_key(values[i].name));
    }
}

proof fn lemma_names_push(names: Map<Seq<char>, u32>, values: Seq<ValueShot>, value: ValueShot)
    requires
        names_index(names, values),
        !names.contains_key(value.name),
        values.len() < u32::MAX,
    ensures
        names_index(names.insert(value.name, values.len() as u32), values.push(value)),
{
    let next = names.insert(value.name, values.len() as u32);
    let more = values.push(value);
    assert forall|i: int| 0 <= i < more.len() implies next.contains_key((#[trigger] more[i]).name)
        && next[more[i].name] == i by {
        if i < values.len() {
            assert(more[i] == values[i]);
            assert(names.contains_key(values[i].name));
        }
    }
    assert forall|name: Seq<char>| #[trigger] next.contains_key(name) implies next[name]
        < more.len() && more[next[name] as int].name == name by {
        if name != value.name {
            assert(names.contains_key(name));
        }
    }
}

/// Lowering dimensions touches nothing but symbols.
proof fn lemma_lower_dims(ir: IrState, dims: Seq<DimShot>)
    ensures
        lower_dims(ir, dims).0 == (IrState {
            symbols: lower_dims(ir, dims).0.symbols,
            next_symbol: lower_dims(ir, dims).0.next_symbol,
            ..ir
        }),
    decreases dims.len(),
{
    if dims.len() > 0 {
        lemma_lower_dims(ir, dims.drop_last());
    }
}

proof fn lemma_declared(ir: IrState, value: ValueShot)
    ensures
        declare_value(ir, value).values.len() == ir.values.len() + 1,
        declare_value(ir, value).nodes == ir.nodes,
        declare_value(ir, value).compact == ir.compact,
{
    let dims = match value_shape(value) {
        Some(dims) => dims,
        None => Seq::empty(),
    };
    lemma_lower_dims(ir, dims);
}

/// Adding a value keeps the tables in agreement.
proof fn lemma_tables_after_value(before: OrtGraphSnapshot, after: OrtGraphSnapshot)
    requires
        tables_agree(before),
        shot_of(after).ir.compact,
        shot_of(after).ir.values.len() == shot_of(after).values.len(),
        shot_of(after).ir.nodes == shot_of(before).ir.nodes,
        shot_of(after).values.len() <= u32::MAX,
        names_index(after.value_by_name@, shot_of(after).values),
        shot_of(after).values.len() == shot_of(before).values.len() + 1,
        forall|i: int|
            0 <= i < shot_of(before).values.len() ==> shot_of(after).values[i]
                == #[trigger] shot_of(before).values[i],
        after.nodes == before.nodes,
        after.graph_input_slots == before.graph_input_slots,
        after.graph_output_slots == before.graph_output_slots,
        after.initializers == before.initializers,
        after.node_by_ort_id == before.node_by_ort_id,
        after.subgraphs == before.subgraphs,
        after.node_schema_versions == before.node_schema_versions,
    ensures
        tables_agree(after),
{
    let old_shot = shot_of(before);
    let new_shot = shot_of(after);
    assert(new_shot.nodes == old_shot.nodes);
    assert forall|i: int| 0 <= i < new_shot.nodes.len() implies slots_live(
        (#[trigger] new_shot.nodes[i]).input_slots,
        new_shot.values.len() as int,
    ) && slots_live(new_shot.nodes[i].output_slots, new_shot.values.len() as int) by {
        assert(slots_live(old_shot.nodes[i].input_slots, old_shot.values.len() as int));
    }
    assert forall|v: u32| #[trigger] after.initializers@.contains_key(v) implies v
        < new_shot.values.len() && initializer_agrees(
        after.initializers@[v],
        v,
        new_shot.values[v as int],
    ) by {
        assert(before.initializers@.contains_key(v));
        assert(old_shot.values[v as int] == new_shot.values[v as int]);
    }
    assert forall|id: usize| #[trigger] new_shot.node_by_ort_id.contains_key(id) implies new_shot.node_by_ort_id[id]
        < new_shot.nodes.len() && new_shot.nodes[new_shot.node_by_ort_id[id] as int].ort_node_id
        == id by {
        assert(old_shot.node_by_ort_id.contains_key(id));
    }
}

/// A failing operator set fails the whole list.
proof fn lemma_opsets_fail(ir: IrState, opsets: Seq<(String, i64)>, k: int)
    requires
        0 <= k <= opsets.len(),
        import_opsets(ir, opsets.take(k)) is Err,
    ensures
        import_opsets(ir, opsets) == import_opsets(ir, opsets.take(k)),
    decreases opsets.len(),
{
    if k < opsets.len() {
        assert(opsets.drop_last().take(k) =~= opsets.take(k));
        lemma_opsets_fail(ir, opsets.drop_last(), k);
    } else {
        assert(opsets.take(k) =~= opsets);
    }
}

proof fn lemma_opsets_only(ir: IrState, opsets: Seq<(String, i64)>)
    ensures
        import_opsets(ir, opsets) matches Ok(next) ==> next == (IrState {
            opsets: next.opsets,
            ..ir
        }),
    decreases opsets.len(),
{
    if opsets.len() > 0 {
        lemma_opsets_only(ir, opsets.drop_last());
    }
}

/// Reads the declared operator sets into the IR.
fn capture_opsets(
    graph: &mut onnx_runtime_ir::Graph,
    opsets: &Vec<(String, i64)>,
) -> (outcome: Result<(), String>)
    ensures
        match outcome {
            Ok(_) => import_opsets(ir_state(*old(graph)), opsets@) == Ok::<IrState, Seq<char>>(
                ir_state(*final(graph)),
            ),
            Err(failure) => import_opsets(ir_state(*old(graph)), opsets@) == Err::<
                IrState,
                Seq<char>,
            >(failure@),
        },
{
    let ghost start = ir_state(*graph);
    let mut at: usize = 0;
    proof {
        assert(opsets@.take(0) =~= Seq::<(String, i64)>::empty());
    }
    while at < opsets.len()
        invariant
            at <= opsets@.len(),
            start == ir_state(*old(graph)),
            import_opsets(start, opsets@.take(at as int)) == Ok::<IrState, Seq<char>>(
                ir_state(*graph),
            ),
        decreases opsets@.len() - at,
    {
        let ghost before = ir_state(*graph);
        let domain: String = normalize_domain(opsets[at].0.as_str());
        let version: i64 = opsets[at].1;
        proof {
            assert(opsets@.take(at + 1).drop_last() =~= opsets@.take(at as int));
            assert(opsets@.take(at + 1).last() == opsets@[at as int]);
        }
        if version <= 0 {
            let mut failure: String = join3(
                "ORT reported invalid opset version ",
                signed_text(version).as_str(),
                " for ",
            );
            failure.append(quoted(domain.as_str()).as_str());
            proof {
                lemma_opsets_fail(start, opsets@, at + 1);
            }
            return Err(failure);
        }
        let previous: Option<u64> = import_opset(graph, domain.clone(), version as u64);
        match previous {
            Some(earlier) => {
                if earlier != version as u64 {
                    let mut failure: String = join3(
                        "ORT reported conflicting opset versions ",
                        decimal_text(earlier).as_str(),
                        " and ",
                    );
                    failure.append(decimal_text(version as u64).as_str());
                    failure.append(" for ");
                    failure.append(quoted(domain.as_str()).as_str());
                    proof {
                        lemma_opsets_fail(start, opsets@, at + 1);
                    }
                    return Err(failure);
                }
            },
            None => {},
        }
        at = at + 1;
    }
    proof {
        assert(opsets@.take(at as int) =~= opsets@);
    }
    Ok(())
}

proof fn lemma_present_push(slots: Seq<Option<u32>>, slot: Option<u32>)
    ensures
        present(slots.push(slot)) == (match slot {
            Some(value) => present(slots).push(value),
            None => present(slots),
        }),
{
    assert(slots.push(slot).drop_last() =~= slots);
}

/// Present slots of a live list are live.
pub proof fn lemma_present_live(slots: Seq<Option<u32>>, count: int)
    requires
        slots_live(slots, count),
    ensures
        forall|i: int| 0 <= i < present(slots).len() ==> #[trigger] present(slots)[i] < count,
        forall|v: u32| #[trigger] present(slots).contains(v) <==> slots.contains(Some(v)),
        present(slots).len() <= slots.len(),
    decreases slots.len(),
{
    if slots.len() > 0 {
        let front = slots.drop_last();
        assert forall|i: int| 0 <= i < front.len() && (#[trigger] front[i]) is Some implies front[i]->0
            < count by {
            assert(front[i] == slots[i]);
        }
        lemma_present_live(front, count);
        assert(slots[slots.len() - 1] == slots.last());
        let all = present(slots);
        let some = present(front);
        assert forall|v: u32| #[trigger] all.contains(v) <==> slots.contains(Some(v)) by {
            if all.contains(v) {
                let i = choose|i: int| 0 <= i < all.len() && all[i] == v;
                if i < some.len() {
                    assert(some[i] == v);
                    assert(some.contains(v));
                    let j = choose|j: int| 0 <= j < front.len() && front[j] == Some(v);
                    assert(slots[j] == Some(v));
                } else {
                    assert(slots[slots.len() - 1] == Some(v));
                }
            }
            if slots.contains(Some(v)) {
                let j = choose|j: int| 0 <= j < slots.len() && slots[j] == Some(v);
                if j < front.len() {
                    assert(front[j] == Some(v));
                    assert(some.contains(v));
                    let i = choose|i: int| 0 <= i < some.len() && some[i] == v;
                    assert(all[i] == v);
                } else {
                    assert(all[all.len() - 1] == v);
                }
            }
        }
    }
}

/// The slots that are present.
fn present_slots(slots: &Vec<Option<u32>>) -> (values: Vec<u32>)
    ensures
        values@ == present(slots@),
{
    let mut values: Vec<u32> = Vec::new();
    let mut at: usize = 0;
    proof {
        assert(slots@.take(0) =~= Seq::<Option<u32>>::empty());
        assert(values@ =~= present(slots@.take(0)));
    }
    while at < slots.len()
        invariant
            at <= slots@.len(),
            values@ == present(slots@.take(at as int)),
        decreases slots@.len() - at,
    {
        proof {
            assert(slots@.take(at + 1) =~= slots@.take(at as int).push(slots@[at as int]));
            lemma_present_push(slots@.take(at as int), slots@[at as int]);
        }
        match slots[at] {
            Some(value) => {
                values.push(value);
            },
            None => {},
        }
        at = at + 1;
    }
    proof {
        assert(slots@.take(at as int) =~= slots@);
    }
    values
}

fn clone_dims(dims: &Vec<DimensionMetadata>) -> (copy: Vec<DimensionMetadata>)
    ensures
        dim_shots(copy@) == dim_shots(dims@),
{
    let mut copy: Vec<DimensionMetadata> = Vec::new();
    while copy.len() < dims.len()
        invariant
            copy@.len() <= dims@.len(),
            forall|i: int| 0 <= i < copy@.len() ==> (#[trigger] copy@[i])@ == dims@[i]@,
        decreases dims@.len() - copy@.len(),
    {
        match &dims[copy.len()] {
            DimensionMetadata::Static(size) => {
                copy.push(DimensionMetadata::Static(*size));
            },
            DimensionMetadata::Symbolic(name) => {
                copy.push(DimensionMetadata::Symbolic(name.clone()));
            },
        }
    }
    proof {
        assert(dim_shots(copy@) =~= dim_shots(dims@));
    }
    copy
}

impl OrtGraphSnapshot {
    /// Records the graph inputs.
    fn record_inputs(&mut self, slots: Vec<Option<u32>>)
        requires
            well_formed(*old(self)),
            slots_live(slots@, shot_of(*old(self)).values.len() as int),
            shot_of(*old(self)).ir.inputs.len() == 0,
        ensures
            well_formed(*final(self)),
            shot_of(*final(self)) == with_inputs(shot_of(*old(self)), slots@),
            final(self).subgraphs == old(self).subgraphs,
    {
        let values: Vec<u32> = present_slots(&slots);
        let ghost start = *self;
        let ghost ir = ir_state(self.ir);
        let mut at: usize = 0;
        proof {
            lemma_present_live(slots@, shot_of(start).values.len() as int);
            assert(values@.take(0) =~= ir.inputs);
        }
        while at < values.len()
            invariant
                at <= values@.len(),
                start == *old(self),
                ir == ir_state(start.ir),
                ir.compact,
                forall|i: int| 0 <= i < values@.len() ==> #[trigger] values@[i] < ir.values.len(),
                *self == (OrtGraphSnapshot { ir: self.ir, ..start }),
                ir_state(self.ir) == (IrState { inputs: values@.take(at as int), ..ir }),
            decreases values@.len() - at,
        {
            add_input(&mut self.ir, values[at]);
            proof {
                assert(values@.take(at + 1) =~= values@.take(at as int).push(values@[at as int]));
            }
            at = at + 1;
        }
        proof {
            assert(values@.take(at as int) =~= values@);
        }
        self.graph_input_slots = slots;
        proof {
            lemma_same_tables(start, *self);
            assert(shot_of(*self) =~= with_inputs(shot_of(start), slots@));
        }
    }

    /// Records the graph outputs.
    fn record_outputs(&mut self, slots: Vec<Option<u32>>)
        requires
            well_formed(*old(self)),
            slots_live(slots@, shot_of(*old(self)).values.len() as int),
            shot_of(*old(self)).ir.outputs.len() == 0,
        ensures
            well_formed(*final(self)),
            shot_of(*final(self)) == with_outputs(shot_of(*old(self)), slots@),
            final(self).subgraphs == old(self).subgraphs,
    {
        let values: Vec<u32> = present_slots(&slots);
        let ghost start = *self;
        let ghost ir = ir_state(self.ir);
        let mut at: usize = 0;
        proof {
            lemma_present_live(slots@, shot_of(start).values.len() as int);
            assert(values@.take(0) =~= ir.outputs);
        }
        while at < values.len()
            invariant
                at <= values@.len(),
                start == *old(self),
                ir == ir_state(start.ir),
                ir.compact,
                forall|i: int| 0 <= i < values@.len() ==> #[trigger] values@[i] < ir.values.len(),
                *self == (OrtGraphSnapshot { ir: self.ir, ..start }),
                ir_state(self.ir) == (IrState { outputs: values@.take(at as int), ..ir }),
            decreases values@.len() - at,
        {
            add_output(&mut self.ir, values[at]);
            proof {
                assert(values@.take(at + 1) =~= values@.take(at as int).push(values@[at as int]));
            }
            at = at + 1;
        }
        proof {
            assert(values@.take(at as int) =~= values@);
        }
        self.graph_output_slots = slots;
        proof {
            lemma_same_tables(start, *self);
            assert(shot_of(*self) =~= with_outputs(shot_of(start), slots@));
        }
    }

    /// The metadata of one initializer.
    fn initializer_metadata(&self, value: u32) -> (metadata: InitializerMetadata)
        requires
            value < self.values@.len(),
        ensures
            initializer_agrees(metadata, value, self.values@[value as int]@),
    {
        let mut dtype: Option<i32> = None;
        let mut shape: Option<Vec<DimensionMetadata>> = None;
        match &self.values[value as usize].tensor {
            Some(tensor) => {
                dtype = tensor.dtype;
                match &tensor.shape {
                    Some(dims) => {
                        shape = Some(clone_dims(dims));
                    },
                    None => {},
                }
            },
            None => {},
        }
        InitializerMetadata { value, dtype, shape }
    }

    /// Records which values are initializers.
    fn record_initializers(&mut self, slots: Vec<Option<u32>>)
        requires
            well_formed(*old(self)),
            slots_live(slots@, shot_of(*old(self)).values.len() as int),
            shot_of(*old(self)).initializers == Set::<u32>::empty(),
        ensures
            well_formed(*final(self)),
            shot_of(*final(self)) == (Shot {
                initializers: present(slots@).to_set(),
                ..shot_of(*old(self))
            }),
            final(self).subgraphs == old(self).subgraphs,
    {
        let values: Vec<u32> = present_slots(&slots);
        let ghost start = *self;
        let ghost shot = shot_of(*self);
        let mut at: usize = 0;
        proof {
            lemma_present_live(slots@, shot.values.len() as int);
            assert(values@.take(0).to_set() =~= Set::<u32>::empty());
        }
        while at < values.len()
            invariant
                at <= values@.len(),
                start == *old(self),
                shot == shot_of(start),
                forall|i: int| 0 <= i < values@.len() ==> #[trigger] values@[i] < shot.values.len(),
                *self == (OrtGraphSnapshot { initializers: self.initializers, ..start }),
                self.initializers@.dom() == values@.take(at as int).to_set(),
                forall|v: u32| #[trigger]
                    self.initializers@.contains_key(v) ==> v < shot.values.len()
                        && initializer_agrees(
                        self.initializers@[v],
                        v,
                        shot.values[v as int],
                    ),
            decreases values@.len() - at,
        {
            let value: u32 = values[at];
            let metadata: InitializerMetadata = self.initializer_metadata(value);
            let ghost before = self.initializers@;
            self.initializers.insert(value, metadata);
            proof {
                let shorter = values@.take(at as int);
                assert(values@.take(at + 1) =~= shorter.push(value));
                shorter.lemma_push_to_set_commute(value);
                assert(self.initializers@.dom() =~= before.dom().insert(value));
                assert(shot.values[value as int] == start.values@[value as int]@);
            }
            at = at + 1;
        }
        proof {
            assert(values@.take(at as int) =~= values@);
            lemma_same_tables(start, *self);
            assert(shot_of(*self) =~= (Shot { initializers: present(slots@).to_set(), ..shot }));
        }
    }

    /// The versions and the boundary of a graph.
    fn capture_boundary(&mut self, raw: &RawGraph) -> (outcome: Result<(), String>)
        requires
            well_formed(*old(self)),
            shot_of(*old(self)).ir.inputs.len() == 0,
            shot_of(*old(self)).ir.outputs.len() == 0,
            shot_of(*old(self)).initializers == Set::<u32>::empty(),
            load(shot_of(*old(self))) + part_weight(raw.inputs) + part_weight(raw.outputs)
                + part_weight(raw.initializers) < u32::MAX,
        ensures
            match outcome {
                Ok(_) => {
                    &&& well_formed(*final(self))
                    &&& capture_boundary(shot_of(*old(self)), *raw) == Ok::<Shot, Seq<char>>(
                        shot_of(*final(self)),
                    )
                    &&& load(shot_of(*final(self))) <= load(shot_of(*old(self))) + part_weight(
                        raw.inputs,
                    ) + part_weight(raw.outputs) + part_weight(raw.initializers)
                    &&& final(self).subgraphs == old(self).subgraphs
                },
                Err(failure) => capture_boundary(shot_of(*old(self)), *raw) == Err::<
                    Shot,
                    Seq<char>,
                >(failure@),
            },
    {
        let ghost shot = shot_of(*self);
        proof {
            lemma_ensure_part_frame(shot, raw.inputs);
        }
        match self.ensure_values(&raw.inputs) {
            Err(failure) => {
                return Err(failure);
            },
            Ok(slots) => {
                self.record_inputs(slots);
            },
        }
        proof {
            lemma_ensure_part_frame(shot_of(*self), raw.outputs);
        }
        match self.ensure_values(&raw.outputs) {
            Err(failure) => {
                return Err(failure);
            },
            Ok(slots) => {
                self.record_outputs(slots);
            },
        }
        proof {
            lemma_ensure_part_frame(shot_of(*self), raw.initializers);
        }
        match self.ensure_values(&raw.initializers) {
            Err(failure) => Err(failure),
            Ok(slots) => {
                self.record_initializers(slots);
                Ok(())
            },
        }
    }
}

/// Mentioning values touches only the values and the symbols.
proof fn lemma_ensure_slots_frame(shot: Shot, slots: Seq<Option<RawValueInfo>>)
    ensures
        ensure_slots(shot, slots) matches Ok((next, ids)) ==> {
            &&& next == (Shot { ir: next.ir, values: next.values, ..shot })
            &&& next.ir.inputs == shot.ir.inputs
            &&& next.ir.outputs == shot.ir.outputs
            &&& next.ir.nodes == shot.ir.nodes
        },
    decreases slots.len(),
{
    if slots.len() > 0 {
        lemma_ensure_slots_frame(shot, slots.drop_last());
        if ensure_slots(shot, slots.drop_last()) is Ok {
            let (before, ids) = ensure_slots(shot, slots.drop_last())->Ok_0;
            if slots.last() is Some {
                let info = slots.last()->0;
                if info.name is Ok {
                    let name = info.name->Ok_0@;
                    if metadata_of(info.ty, name) is Ok {
                        let value = metadata_of(info.ty, name)->Ok_0;
                        let dims = match value_shape(value) {
                            Some(dims) => dims,
                            None => Seq::empty(),
                        };
                        lemma_lower_dims(before.ir, dims);
                    }
                }
            }
        }
    }
}

proof fn lemma_ensure_part_frame(shot: Shot, part: Result<Vec<Option<RawValueInfo>>, String>)
    ensures
        ensure_part(shot, part) matches Ok((next, ids)) ==> {
            &&& next == (Shot { ir: next.ir, values: next.values, ..shot })
            &&& next.ir.inputs == shot.ir.inputs
            &&& next.ir.outputs == shot.ir.outputs
            &&& next.ir.nodes == shot.ir.nodes
        },
{
    if part is Ok {
        lemma_ensure_slots_frame(shot, part->Ok_0@);
    }
}

/// Changing boundary lists and initializers keeps the tables in agreement.
proof fn lemma_same_tables(before: OrtGraphSnapshot, after: OrtGraphSnapshot)
    requires
        well_formed(before),
        ir_state(after.ir).compact,
        ir_state(after.ir).values.len() == ir_state(before.ir).values.len(),
        ir_state(after.ir).nodes.len() == ir_state(before.ir).nodes.len(),
        after.values == before.values,
        after.nodes == before.nodes,
        after.value_by_name == before.value_by_name,
        after.node_by_ort_id == before.node_by_ort_id,
        after.subgraphs == before.subgraphs,
        after.node_schema_versions == before.node_schema_versions,
        slots_live(after.graph_input_slots@, before.values@.len() as int),
        slots_live(after.graph_output_slots@, before.values@.len() as int),
        forall|v: u32| #[trigger]
            after.initializers@.contains_key(v) ==> v < before.values@.len() && initializer_agrees(
                after.initializers@[v],
                v,
                before.values@[v as int]@,
            ),
    ensures
        well_formed(after),
{
    let old_shot = shot_of(before);
    let new_shot = shot_of(after);
    assert(new_shot.nodes == old_shot.nodes);
    assert(new_shot.values == old_shot.values);
    assert forall|v: u32| #[trigger] after.initializers@.contains_key(v) implies v
        < new_shot.values.len() && initializer_agrees(
        after.initializers@[v],
        v,
        new_shot.values[v as int],
    ) by {
        assert(new_shot.values[v as int] == before.values@[v as int]@);
    }
    assert forall|i: int| 0 <= i < new_shot.nodes.len() implies slots_live(
        (#[trigger] new_shot.nodes[i]).input_slots,
        new_shot.values.len() as int,
    ) && slots_live(new_shot.nodes[i].output_slots, new_shot.values.len() as int) by {
        assert(slots_live(old_shot.nodes[i].input_slots, old_shot.values.len() as int));
    }
    assert forall|id: usize| #[trigger] new_shot.node_by_ort_id.contains_key(id) implies new_shot.node_by_ort_id[id]
        < new_shot.nodes.len() && new_shot.nodes[new_shot.node_by_ort_id[id] as int].ort_node_id
        == id by {
        assert(old_shot.node_by_ort_id.contains_key(id));
    }
}

/// Adds a version to an ascending list unless it is there.
fn insert_version(versions: &Vec<i32>, version: i32) -> (more: Vec<i32>)
    requires
        versions_ascend(versions@),
    ensures
        versions_ascend(more@),
        more@.to_set() == versions@.to_set().insert(version),
{
    let mut more: Vec<i32> = Vec::new();
    let mut at: usize = 0;
    let mut placed: bool = false;
    while at < versions.len()
        invariant
            at <= versions@.len(),
            versions_ascend(versions@),
            versions_ascend(more@),
            forall|i: int|
                0 <= i < more@.len() ==> (at < versions@.len() ==> #[trigger] more@[i]
                    < versions@[at as int]) && (!placed ==> more@[i] < version),
            placed ==> more@.contains(version),
            forall|x: i32| #[trigger]
                more@.contains(x) <==> versions@.take(at as int).contains(x) || (placed && x
                    == version),
        decreases versions@.len() - at,
    {
        let next: i32 = versions[at];
        let ghost before = more@;
        let ghost shorter = versions@.take(at as int);
        if !placed && version <= next {
            placed = true;
            if version < next {
                more.push(version);
            }
        }
        let ghost middle = more@;
        more.push(next);
        proof {
            let longer = versions@.take(at + 1);
            assert(longer =~= shorter.push(next));
            assert forall|x: i32| #[trigger] more@.contains(x) <==> longer.contains(x) || (placed && x
                == version) by {
                if before.contains(x) {
                    let i = choose|i: int| 0 <= i < before.len() && before[i] == x;
                    assert(more@[i] == x);
                }
                if more@.contains(x) {
                    let i = choose|i: int| 0 <= i < more@.len() && more@[i] == x;
                    if i < before.len() {
                        assert(before[i] == x);
                        assert(before.contains(x));
                    }
                }
                if shorter.contains(x) {
                    let i = choose|i: int| 0 <= i < shorter.len() && shorter[i] == x;
                    assert(longer[i] == x);
                    assert(before.contains(x));
                }
                if longer.contains(x) {
                    let i = choose|i: int| 0 <= i < longer.len() && longer[i] == x;
                    if i < shorter.len() {
                        assert(shorter[i] == x);
                    }
                }
                assert(longer[at as int] == next);
                assert(more@[middle.len() as int] == next);
                if middle.len() > before.len() {
                    assert(more@[before.len() as int] == version);
                }
            }
        }
        at = at + 1;
    }
    proof {
        assert(versions@.take(at as int) =~= versions@);
    }
    let ghost before = more@;
    if !placed {
        more.push(version);
    }
    proof {
        assert forall|x: i32| more@.to_set().contains(x) <==> versions@.to_set().insert(
            version,
        ).contains(x) by {
            assert(before.contains(x) <==> versions@.contains(x) || (placed && x == version));
            if before.contains(x) {
                let i = choose|i: int| 0 <= i < before.len() && before[i] == x;
                assert(more@[i] == x);
            }
            if more@.contains(x) {
                let i = choose|i: int| 0 <= i < more@.len() && more@[i] == x;
                if i < before.len() {
                    assert(before[i] == x);
                }
            }
            if !placed {
                assert(more@[before.len() as int] == version);
            }
        }
        assert(more@.to_set() =~= versions@.to_set().insert(version));
    }
    more
}

/// The bodies by node and attribute are those that the entries name.
pub proof fn lemma_subgraph_map(entries: Seq<SubgraphEntry>)
    ensures
        forall|key: (u32, Seq<char>)| #[trigger]
            subgraph_map(entries).contains_key(key) <==> exists|i: int|
                0 <= i < entries.len() && (#[trigger] entries[i]).node == key.0
                    && entries[i].attribute@ == key.1,
        entries_distinct(entries) ==> forall|i: int|
            0 <= i < entries.len() ==> subgraph_map(entries)[(
                (#[trigger] entries[i]).node,
                entries[i].attribute@,
            )] == shot_of(*entries[i].snapshot),
    decreases entries.len(),
{
    if entries.len() > 0 {
        let front = entries.drop_last();
        lemma_subgraph_map(front);
        let last = entries.last();
        assert(entries[entries.len() - 1] == last);
        assert forall|key: (u32, Seq<char>)| #[trigger] subgraph_map(entries).contains_key(key) <==> exists|
            i: int,
        |
            0 <= i < entries.len() && (#[trigger] entries[i]).node == key.0
                && entries[i].attribute@ == key.1 by {
            if subgraph_map(front).contains_key(key) {
                let i = choose|i: int|
                    0 <= i < front.len() && (#[trigger] front[i]).node == key.0
                        && front[i].attribute@ == key.1;
                assert(entries[i] == front[i]);
            }
            if exists|i: int|
                0 <= i < entries.len() && (#[trigger] entries[i]).node == key.0
                    && entries[i].attribute@ == key.1 {
                let i = choose|i: int|
                    0 <= i < entries.len() && (#[trigger] entries[i]).node == key.0
                        && entries[i].attribute@ == key.1;
                if i < front.len() {
                    assert(front[i] == entries[i]);
                }
            }
        }
        if entries_distinct(entries) {
            assert(entries_distinct(front)) by {
                assert forall|i: int, j: int| 0 <= i < j < front.len() implies (
                #[trigger] front[i]).node != (#[trigger] front[j]).node || front[i].attribute@
                    != front[j].attribute@ by {
                    assert(front[i] == entries[i] && front[j] == entries[j]);
                }
            }
            assert forall|i: int| 0 <= i < entries.len() implies subgraph_map(entries)[(
                (#[trigger] entries[i]).node,
                entries[i].attribute@,
            )] == shot_of(*entries[i].snapshot) by {
                if i < front.len() {
                    assert(front[i] == entries[i]);
                }
            }
        }
    }
}

proof fn lemma_entries_well_formed(entries: Seq<SubgraphEntry>)
    ensures
        entries_well_formed(entries) <==> forall|i: int|
            0 <= i < entries.len() ==> well_formed(*(#[trigger] entries[i]).snapshot),
    decreases entries.len(),
{
    if entries.len() > 0 {
        let front = entries.drop_last();
        lemma_entries_well_formed(front);
        assert(entries[entries.len() - 1] == entries.last());
        assert forall|i: int| 0 <= i < front.len() implies #[trigger] front[i] == entries[i] by {}
        if forall|i: int| 0 <= i < entries.len() ==> well_formed(*(#[trigger] entries[i]).snapshot) {
            assert forall|i: int| 0 <= i < front.len() implies well_formed(
                *(#[trigger] front[i]).snapshot,
            ) by {
                assert(front[i] == entries[i]);
            }
        }
        if entries_well_formed(entries) {
            assert forall|i: int| 0 <= i < entries.len() implies well_formed(
                *(#[trigger] entries[i]).snapshot,
            ) by {
                if i < front.len() {
                    assert(front[i] == entries[i]);
                }
            }
        }
    }
}

/// Attaches a body, in the place of an earlier one under the same key.
fn put_subgraph(entries: &mut Vec<SubgraphEntry>, entry: SubgraphEntry)
    requires
        entries_distinct(old(entries)@),
        entries_well_formed(old(entries)@),
        well_formed(*entry.snapshot),
    ensures
        entries_distinct(final(entries)@),
        entries_well_formed(final(entries)@),
        subgraph_map(final(entries)@) == subgraph_map(old(entries)@).insert(
            (entry.node, entry.attribute@),
            shot_of(*entry.snapshot),
        ),
{
    let ghost start = entries@;
    let ghost key = (entry.node, entry.attribute@);
    let mut at: usize = 0;
    while at < entries.len() && !(entries[at].node == entry.node && same_text(
        entries[at].attribute.as_str(),
        entry.attribute.as_str(),
    ))
        invariant
            at <= entries@.len(),
            entries@ == start,
            forall|i: int|
                0 <= i < at ==> (#[trigger] start[i]).node != entry.node || start[i].attribute@
                    != entry.attribute@,
        decreases entries@.len() - at,
    {
        at = at + 1;
    }
    if at < entries.len() {
        entries.remove(at);
    }
    let ghost middle = entries@;
    entries.push(entry);
    proof {
        let back = |i: int|
            if i < at {
                i
            } else {
                i + 1
            };
        assert forall|i: int| 0 <= i < middle.len() implies #[trigger] middle[i] == start[back(i)] by {
        }
        assert(entries@.drop_last() =~= middle);
        assert(entries_distinct(middle)) by {
            assert forall|i: int, j: int| 0 <= i < j < middle.len() implies (
            #[trigger] middle[i]).node != (#[trigger] middle[j]).node || middle[i].attribute@
                != middle[j].attribute@ by {
                assert(middle[i] == start[back(i)] && middle[j] == start[back(j)]);
            }
        }
        assert forall|i: int| 0 <= i < middle.len() implies (#[trigger] middle[i]).node
            != entry.node || middle[i].attribute@ != entry.attribute@ by {
            assert(middle[i] == start[back(i)]);
            if at < start.len() && i >= at {
                assert(start[at as int].node == entry.node);
            }
        }
        lemma_entries_well_formed(start);
        lemma_entries_well_formed(middle);
        lemma_subgraph_map(start);
        lemma_subgraph_map(middle);
        assert forall|k: (u32, Seq<char>)| k != key implies (subgraph_map(middle).contains_key(k)
            <==> subgraph_map(start).contains_key(k)) && (subgraph_map(start).contains_key(k)
            ==> subgraph_map(middle)[k] == subgraph_map(start)[k]) by {
            if subgraph_map(middle).contains_key(k) {
                let i = choose|i: int|
                    0 <= i < middle.len() && (#[trigger] middle[i]).node == k.0
                        && middle[i].attribute@ == k.1;
                assert(start[back(i)] == middle[i]);
            }
            if subgraph_map(start).contains_key(k) {
                let i = choose|i: int|
                    0 <= i < start.len() && (#[trigger] start[i]).node == k.0
                        && start[i].attribute@ == k.1;
                assert(i != at || at == start.len());
                let j = if i < at {
                    i
                } else {
                    i - 1
                };
                assert(middle[j] == start[i]);
            }
        }
        assert(subgraph_map(entries@) =~= subgraph_map(start).insert(
            key,
            shot_of(*entry.snapshot),
        ));
    }
}

impl OrtGraphSnapshot {
    /// Records a node whose slots are known.
    fn record_node(&mut self, record: NodeMetadata) -> (id: NodeId)
        requires
            well_formed(*old(self)),
            slots_live(record.input_slots@, shot_of(*old(self)).values.len() as int),
            slots_live(record.output_slots@, shot_of(*old(self)).values.len() as int),
            record.input_slots@.len() <= u32::MAX,
            shot_of(*old(self)).nodes.len() < u32::MAX,
        ensures
            well_formed(*final(self)),
            id == shot_of(*old(self)).nodes.len(),
            shot_of(*final(self)) == shot_with_node(shot_of(*old(self)), record@),
            final(self).subgraphs == old(self).subgraphs,
    {
        let ghost start = *self;
        let ghost shot = shot_of(*self);
        let ghost node = record@;
        let outputs: Vec<u32> = present_slots(&record.output_slots);
        let id: u32 = insert_node(
            &mut self.ir,
            record.name.clone(),
            record.op_type.clone(),
            record.domain.clone(),
            &record.input_slots,
            &outputs,
        );
        self.node_by_ort_id.insert(record.ort_node_id, id);
        let mut versions: Vec<i32> = Vec::new();
        proof {
            assert(versions@.to_set() =~= Set::<i32>::empty());
        }
        match self.node_schema_versions.get(record.domain.as_str()) {
            Some(known) => {
                versions = insert_version(known, record.since_version);
            },
            None => {
                versions = insert_version(&versions, record.since_version);
            },
        }
        self.node_schema_versions.insert(record.domain.clone(), versions);
        self.nodes.push(record);
        proof {
            let next = shot_of(*self);
            assert(next.nodes =~= shot.nodes.push(node));
            assert(next.versions =~= shot_with_node(shot, node).versions);
            assert(next =~= shot_with_node(shot, node));
            assert forall|i: int| 0 <= i < next.nodes.len() implies slots_live(
                (#[trigger] next.nodes[i]).input_slots,
                next.values.len() as int,
            ) && slots_live(next.nodes[i].output_slots, next.values.len() as int) by {
                if i < shot.nodes.len() {
                    assert(next.nodes[i] == shot.nodes[i]);
                }
            }
            assert forall|key: usize| #[trigger] next.node_by_ort_id.contains_key(key) implies next.node_by_ort_id[key]
                < next.nodes.len() && next.nodes[next.node_by_ort_id[key] as int].ort_node_id
                == key by {
                if key != node.ort_node_id {
                    assert(shot.node_by_ort_id.contains_key(key));
                    assert(next.nodes[next.node_by_ort_id[key] as int]
                        == shot.nodes[shot.node_by_ort_id[key] as int]);
                }
            }
            assert forall|v: u32| #[trigger] self.initializers@.contains_key(v) implies v
                < next.values.len() && initializer_agrees(
                self.initializers@[v],
                v,
                next.values[v as int],
            ) by {
                assert(start.initializers@.contains_key(v));
            }
        }
        id
    }

    /// Attaches a body to a node.
    fn record_subgraph(&mut self, node: NodeId, attribute: String, body: OrtGraphSnapshot)
        requires
            well_formed(*old(self)),
            well_formed(body),
        ensures
            well_formed(*final(self)),
            shot_of(*final(self)) == shot_with_subgraph(
                shot_of(*old(self)),
                node,
                attribute@,
                shot_of(body),
            ),
    {
        let ghost start = *self;
        let ghost shot = shot_of(*self);
        let copy: onnx_runtime_ir::Graph = clone_graph(&body.ir);
        insert_subgraph(&mut self.ir, node, attribute.clone(), copy);
        put_subgraph(
            &mut self.subgraphs,
            SubgraphEntry { node, attribute, snapshot: Box::new(body) },
        );
        proof {
            let next = shot_of(*self);
            assert(next =~= shot_with_subgraph(shot, node, attribute@, shot_of(body)));
            assert forall|i: int| 0 <= i < next.nodes.len() implies slots_live(
                (#[trigger] next.nodes[i]).input_slots,
                next.values.len() as int,
            ) && slots_live(next.nodes[i].output_slots, next.values.len() as int) by {
                assert(next.nodes[i] == shot.nodes[i]);
            }
            assert forall|key: usize| #[trigger] next.node_by_ort_id.contains_key(key) implies next.node_by_ort_id[key]
                < next.nodes.len() && next.nodes[next.node_by_ort_id[key] as int].ort_node_id
                == key by {
                assert(shot.node_by_ort_id.contains_key(key));
            }
            assert forall|v: u32| #[trigger] self.initializers@.contains_key(v) implies v
                < next.values.len() && initializer_agrees(
                self.initializers@[v],
                v,
                next.values[v as int],
            ) by {
                assert(start.initializers@.contains_key(v));
            }
        }
    }

    /// The bodies of a node.
    fn capture_bodies(&mut self, node: NodeId, list: &Vec<RawSubgraph>) -> (outcome: Result<
        (),
        String,
    >)
        requires
            well_formed(*old(self)),
            subgraphs_fit(list@),
        ensures
            match outcome {
                Ok(_) => {
                    &&& well_formed(*final(self))
                    &&& capture_bodies(shot_of(*old(self)), node, list@) == Ok::<Shot, Seq<char>>(
                        shot_of(*final(self)),
                    )
                    &&& load(shot_of(*final(self))) == load(shot_of(*old(self)))
                    &&& shot_of(*final(self)).nodes == shot_of(*old(self)).nodes
                },
                Err(failure) => capture_bodies(shot_of(*old(self)), node, list@) == Err::<
                    Shot,
                    Seq<char>,
                >(failure@),
            },
        decreases *list,
    {
        let ghost shot = shot_of(*self);
        let mut at: usize = 0;
        proof {
            assert(list@.take(0) =~= Seq::<RawSubgraph>::empty());
        }
        while at < list.len()
            invariant
                at <= list@.len(),
                well_formed(*self),
                subgraphs_fit(list@),
                shot == shot_of(*old(self)),
                capture_bodies(shot, node, list@.take(at as int)) == Ok::<Shot, Seq<char>>(
                    shot_of(*self),
                ),
                load(shot_of(*self)) == load(shot),
                shot_of(*self).nodes == shot.nodes,
            decreases list@.len() - at,
        {
            proof {
                assert(list@.take(at + 1).drop_last() =~= list@.take(at as int));
                assert(list@.take(at + 1).last() == list@[at as int]);
            }
            let failed: bool = match &list[at].graph {
                None => true,
                Some(_) => list[at].attribute.as_str().is_empty(),
            };
            if failed {
                proof {
                    lemma_bodies_fail(shot, node, list@, at + 1);
                }
                return Err("ORT returned an invalid control-flow subgraph".to_owned());
            }
            match &list[at].graph {
                None => {},
                Some(graph) => {
                    proof {
                        lemma_subgraphs_fit(list@, at as int);
                    }
                    match OrtGraphSnapshot::capture_graph(graph) {
                        Err(failure) => {
                            proof {
                                lemma_bodies_fail(shot, node, list@, at + 1);
                            }
                            return Err(failure);
                        },
                        Ok(body) => {
                            self.record_subgraph(node, list[at].attribute.clone(), body);
                        },
                    }
                },
            }
            at = at + 1;
        }
        proof {
            assert(list@.take(at as int) =~= list@);
        }
        Ok(())
    }

    /// One node, with its values and bodies.
    fn capture_node(&mut self, node: &RawNode) -> (outcome: Result<(), String>)
        requires
            well_formed(*old(self)),
            node_fits(*node),
            load(shot_of(*old(self))) + node_weight(Some(*node)) < u32::MAX,
        ensures
            match outcome {
                Ok(_) => {
                    &&& well_formed(*final(self))
                    &&& capture_one(shot_of(*old(self)), *node) == Ok::<Shot, Seq<char>>(
                        shot_of(*final(self)),
                    )
                    &&& load(shot_of(*final(self))) <= load(shot_of(*old(self))) + node_weight(
                        Some(*node),
                    )
                },
                Err(failure) => capture_one(shot_of(*old(self)), *node) == Err::<Shot, Seq<char>>(
                    failure@,
                ),
            },
        decreases *node,
    {
        let ghost shot = shot_of(*self);
        let input_slots: Vec<Option<u32>> = match self.ensure_values(&node.inputs) {
            Err(failure) => {
                return Err(failure);
            },
            Ok(slots) => slots,
        };
        proof {
            lemma_ensure_part_frame(shot, node.inputs);
        }
        let ghost first = shot_of(*self);
        let output_slots: Vec<Option<u32>> = match self.ensure_values(&node.outputs) {
            Err(failure) => {
                return Err(failure);
            },
            Ok(slots) => slots,
        };
        proof {
            lemma_ensure_part_frame(first, node.outputs);
        }
        let ort_node_id: usize = match &node.id {
            Err(failure) => {
                return Err(failure.clone());
            },
            Ok(id) => *id,
        };
        let name: String = match &node.name {
            Err(failure) => {
                return Err(failure.clone());
            },
            Ok(name) => name.clone(),
        };
        let domain: String = match &node.domain {
            Err(failure) => {
                return Err(failure.clone());
            },
            Ok(domain) => normalize_domain(domain.as_str()),
        };
        let op_type: String = match &node.op_type {
            Err(failure) => {
                return Err(failure.clone());
            },
            Ok(op_type) => op_type.clone(),
        };
        let since_version: i32 = match &node.since_version {
            Err(failure) => {
                return Err(failure.clone());
            },
            Ok(version) => *version,
        };
        let record = NodeMetadata {
            ort_node_id,
            name,
            domain,
            op_type,
            since_version,
            input_slots,
            output_slots,
        };
        let ghost second = shot_of(*self);
        proof {
            assert(node_of(*node, input_slots@, output_slots@) == Ok::<NodeShot, Seq<char>>(
                record@,
            ));
        }
        let id: u32 = self.record_node(record);
        match &node.subgraphs {
            Err(failure) => Err(failure.clone()),
            Ok(list) => self.capture_bodies(id, list),
        }
    }

    /// All nodes, in order.
    fn capture_nodes(&mut self, nodes: &Vec<Option<RawNode>>) -> (outcome: Result<(), String>)
        requires
            well_formed(*old(self)),
            nodes_fit(nodes@),
            load(shot_of(*old(self))) + nodes_weight(nodes@) < u32::MAX,
        ensures
            match outcome {
                Ok(_) => {
                    &&& well_formed(*final(self))
                    &&& capture_all(shot_of(*old(self)), nodes@) == Ok::<Shot, Seq<char>>(
                        shot_of(*final(self)),
                    )
                },
                Err(failure) => capture_all(shot_of(*old(self)), nodes@) == Err::<Shot, Seq<char>>(
                    failure@,
                ),
            },
        decreases *nodes,
    {
        let ghost shot = shot_of(*self);
        let mut at: usize = 0;
        proof {
            assert(nodes@.take(0) =~= Seq::<Option<RawNode>>::empty());
        }
        while at < nodes.len()
            invariant
                at <= nodes@.len(),
                well_formed(*self),
                nodes_fit(nodes@),
                shot == shot_of(*old(self)),
                load(shot) + nodes_weight(nodes@) < u32::MAX,
                capture_all(shot, nodes@.take(at as int)) == Ok::<Shot, Seq<char>>(shot_of(*self)),
                load(shot_of(*self)) <= load(shot) + nodes_weight(nodes@.take(at as int)),
            decreases nodes@.len() - at,
        {
            proof {
                assert(nodes@.take(at + 1).drop_last() =~= nodes@.take(at as int));
                assert(nodes@.take(at + 1).last() == nodes@[at as int]);
                lemma_nodes_weight_split(nodes@, at + 1);
            }
            match &nodes[at] {
                None => {
                    proof {
                        lemma_nodes_fail(shot, nodes@, at + 1);
                    }
                    return Err("ORT graph contains a null node".to_owned());
                },
                Some(node) => {
                    proof {
                        lemma_nodes_fit(nodes@, at as int);
                    }
                    match self.capture_node(node) {
                        Err(failure) => {
                            proof {
                                lemma_nodes_fail(shot, nodes@, at + 1);
                            }
                            return Err(failure);
                        },
                        Ok(_) => {},
                    }
                },
            }
            at = at + 1;
        }
        proof {
            assert(nodes@.take(at as int) =~= nodes@);
        }
        Ok(())
    }

    /// The snapshot of a graph.
    fn capture_graph(raw: &RawGraph) -> (outcome: Result<OrtGraphSnapshot, String>)
        requires
            fits(*raw),
        ensures
            match outcome {
                Ok(snapshot) => well_formed(snapshot) && captured(*raw) == Ok::<Shot, Seq<char>>(
                    shot_of(snapshot),
                ),
                Err(failure) => captured(*raw) == Err::<Shot, Seq<char>>(failure@),
            },
        decreases *raw,
    {
        let mut snapshot = OrtGraphSnapshot::empty();
        let ghost start = snapshot;
        match &raw.ir_version {
            Err(failure) => {
                return Err(failure.clone());
            },
            Ok(version) => {
                snapshot.onnx_ir_version = *version;
            },
        }
        match &raw.opsets {
            Err(failure) => {
                return Err(failure.clone());
            },
            Ok(opsets) => {
                proof {
                    lemma_opsets_only(empty_state(), opsets@);
                }
                match capture_opsets(&mut snapshot.ir, opsets) {
                    Err(failure) => {
                        return Err(failure);
                    },
                    Ok(_) => {},
                }
            },
        }
        proof {
            lemma_same_tables(start, snapshot);
            assert(capture_versions(*raw) == Ok::<Shot, Seq<char>>(shot_of(snapshot)));
        }
        match snapshot.capture_boundary(raw) {
            Err(failure) => {
                return Err(failure);
            },
            Ok(_) => {},
        }
        match &raw.nodes {
            Err(failure) => Err(failure.clone()),
            Ok(nodes) => match snapshot.capture_nodes(nodes) {
                Err(failure) => Err(failure),
                Ok(_) => Ok(snapshot),
            },
        }
    }

    /// Makes an owned snapshot of a graph that was read over the ABI. A null graph handle is
    /// `None`. Fails with the first failure in reading order.
    pub fn from_ort(raw: Option<&RawGraph>) -> (outcome: Result<OrtGraphSnapshot, String>)
        requires
            raw matches Some(graph) ==> fits(*graph),
        ensures
            match (raw, outcome) {
                (None, Ok(_)) => false,
                (None, Err(failure)) => failure@ == "ORT supplied a null graph"@,
                (Some(graph), Ok(snapshot)) => {
                    &&& well_formed(snapshot)
                    &&& mirrors(shot_of(snapshot))
                    &&& captured(*graph) == Ok::<Shot, Seq<char>>(shot_of(snapshot))
                },
                (Some(graph), Err(failure)) => captured(*graph) == Err::<Shot, Seq<char>>(failure@),
            },
    {
        match raw {
            None => Err("ORT supplied a null graph".to_owned()),
            Some(graph) => {
                proof {
                    law_capture_mirrors(*graph);
                }
                OrtGraphSnapshot::capture_graph(graph)
            },
        }
    }
}

proof fn lemma_bodies_fail(shot: Shot, node: u32, list: Seq<RawSubgraph>, k: int)
    requires
        0 <= k <= list.len(),
        capture_bodies(shot, node, list.take(k)) is Err,
    ensures
        capture_bodies(shot, node, list) == capture_bodies(shot, node, list.take(k)),
    decreases list.len(),
{
    if k < list.len() {
        assert(list.drop_last().take(k) =~= list.take(k));
        lemma_bodies_fail(shot, node, list.drop_last(), k);
    } else {
        assert(list.take(k) =~= list);
    }
}

proof fn lemma_nodes_fail(shot: Shot, nodes: Seq<Option<RawNode>>, k: int)
    requires
        0 <= k <= nodes.len(),
        capture_all(shot, nodes.take(k)) is Err,
    ensures
        capture_all(shot, nodes) == capture_all(shot, nodes.take(k)),
    decreases nodes.len(),
{
    if k < nodes.len() {
        assert(nodes.drop_last().take(k) =~= nodes.take(k));
        lemma_nodes_fail(shot, nodes.drop_last(), k);
    } else {
        assert(nodes.take(k) =~= nodes);
    }
}

} // verus!
