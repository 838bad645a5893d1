//! An owned snapshot of one optimized graph, and the mathematical model of its contents.

use std::collections::HashMap;

use vstd::hash_map::StringHashMap;
use vstd::prelude::*;

use crate::ir::{ir_state, with_node, with_symbol, IrDim, IrNode, IrState, IrValue, NodeId, ValueId};

verus! {

broadcast use vstd::std_specs::hash::group_hash_axioms;

#[derive(Clone, Copy, Debug, PartialEq, Eq, Structural)]
pub enum ValueTypeKind {
    Tensor,
    Sequence,
    Optional,
    Other,
    Unknown,
}

#[derive(Debug)]
pub enum DimensionMetadata {
    Static(usize),
    Symbolic(String),
}

/// The element type number and the dimensions of a tensor, as far as they are known.
#[derive(Debug)]
pub struct TensorMetadata {
    pub dtype: Option<i32>,
    pub shape: Option<Vec<DimensionMetadata>>,
}

#[derive(Debug)]
pub struct ValueMetadata {
    pub name: String,
    pub type_kind: ValueTypeKind,
    pub tensor: Option<TensorMetadata>,
}

#[derive(Debug)]
pub struct NodeMetadata {
    /// ORT's stable node id.
    pub ort_node_id: usize,
    pub name: String,
    pub domain: String,
    pub op_type: String,
    /// The operator schema version selected by ORT. This is not a graph opset import.
    pub since_version: i32,
    pub input_slots: Vec<Option<ValueId>>,
    pub output_slots: Vec<Option<ValueId>>,
}

#[derive(Debug)]
pub struct InitializerMetadata {
    pub value: ValueId,
    pub dtype: Option<i32>,
    pub shape: Option<Vec<DimensionMetadata>>,
}

/// The body of a control-flow node.
pub struct SubgraphEntry {
    pub node: NodeId,
    pub attribute: String,
    pub snapshot: Box<OrtGraphSnapshot>,
}

/// A fully-owned representation of one optimized graph.
///
/// `ir` contains the topology. The ids of its nodes and values index `nodes` and `values`, which
/// keep the stable names and ORT node ids. `node_schema_versions` records, ascending, the schema
/// versions selected for the nodes of each domain; the declared operator sets are in the IR.
pub struct OrtGraphSnapshot {
    pub ir: onnx_runtime_ir::Graph,
    pub onnx_ir_version: i64,
    pub nodes: Vec<NodeMetadata>,
    pub values: Vec<ValueMetadata>,
    pub node_by_ort_id: HashMap<usize, NodeId>,
    pub value_by_name: StringHashMap<ValueId>,
    pub graph_input_slots: Vec<Option<ValueId>>,
    pub graph_output_slots: Vec<Option<ValueId>>,
    pub initializers: HashMap<ValueId, InitializerMetadata>,
    pub node_schema_versions: StringHashMap<Vec<i32>>,
    pub subgraphs: Vec<SubgraphEntry>,
}

/// A dimension.
pub ghost enum DimShot {
    Static(usize),
    Symbolic(Seq<char>),
}

/// A tensor type.
#[verifier::ext_equal]
pub ghost struct TensorShot {
    pub dtype: Option<i32>,
    pub shape: Option<Seq<DimShot>>,
}

/// A value.
#[verifier::ext_equal]
pub ghost struct ValueShot {
    pub name: Seq<char>,
    pub kind: ValueTypeKind,
    pub tensor: Option<TensorShot>,
}

/// A node.
#[verifier::ext_equal]
pub ghost struct NodeShot {
    pub ort_node_id: usize,
    pub name: Seq<char>,
    pub domain: Seq<char>,
    pub op_type: Seq<char>,
    pub since_version: i32,
    pub input_slots: Seq<Option<u32>>,
    pub output_slots: Seq<Option<u32>>,
}

/// What a snapshot holds.
#[verifier::ext_equal]
pub ghost struct Shot {
    pub ir: IrState,
    pub ir_version: i64,
    pub nodes: Seq<NodeShot>,
    pub values: Seq<ValueShot>,
    pub node_by_ort_id: Map<usize, u32>,
    pub inputs: Seq<Option<u32>>,
    pub outputs: Seq<Option<u32>>,
    pub initializers: Set<u32>,
    pub versions: Map<Seq<char>, Set<i32>>,
    pub subgraphs: Map<(u32, Seq<char>), Shot>,
}

impl View for DimensionMetadata {
    type V = DimShot;

    open spec fn view(&self) -> DimShot {
        match self {
            DimensionMetadata::Static(size) => DimShot::Static(*size),
            DimensionMetadata::Symbolic(name) => DimShot::Symbolic(name@),
        }
    }
}

/// The dimensions of a shape.
pub open spec fn dim_shots(dims: Seq<DimensionMetadata>) -> Seq<DimShot> {
    Seq::new(dims.len(), |i: int| dims[i]@)
}

pub open spec fn shape_shot(shape: Option<Vec<DimensionMetadata>>) -> Option<Seq<DimShot>> {
    match shape {
        Some(dims) => Some(dim_shots(dims@)),
        None => None,
    }
}

impl View for TensorMetadata {
    type V = TensorShot;

    open spec fn view(&self) -> TensorShot {
        TensorShot { dtype: self.dtype, shape: shape_shot(self.shape) }
    }
}

impl View for ValueMetadata {
    type V = ValueShot;

    open spec fn view(&self) -> ValueShot {
        ValueShot {
            name: self.name@,
            kind: self.type_kind,
            tensor: match self.tensor {
                Some(tensor) => Some(tensor@),
                None => None,
            },
        }
    }
}

impl View for NodeMetadata {
    type V = NodeShot;

    open spec fn view(&self) -> NodeShot {
        NodeShot {
            ort_node_id: self.ort_node_id,
            name: self.name@,
            domain: self.domain@,
            op_type: self.op_type@,
            since_version: self.since_version,
            input_slots: self.input_slots@,
            output_slots: self.output_slots@,
        }
    }
}

/// The element type of a value, where it is a tensor of known type.
pub open spec fn value_dtype(value: ValueShot) -> Option<i32> {
    match value.tensor {
        Some(tensor) => tensor.dtype,
        None => None,
    }
}

/// The dimensions of a value, where it is a tensor of known shape.
pub open spec fn value_shape(value: ValueShot) -> Option<Seq<DimShot>> {
    match value.tensor {
        Some(tensor) => tensor.shape,
        None => None,
    }
}

pub open spec fn value_shots(values: Seq<ValueMetadata>) -> Seq<ValueShot> {
    Seq::new(values.len(), |i: int| values[i]@)
}

pub open spec fn node_shots(nodes: Seq<NodeMetadata>) -> Seq<NodeShot> {
    Seq::new(nodes.len(), |i: int| nodes[i]@)
}

pub open spec fn version_sets(versions: Map<Seq<char>, Vec<i32>>) -> Map<Seq<char>, Set<i32>> {
    Map::new(
        |domain: Seq<char>| versions.contains_key(domain),
        |domain: Seq<char>| versions[domain]@.to_set(),
    )
}

/// The bodies by node and attribute.
pub open spec fn subgraph_map(entries: Seq<SubgraphEntry>) -> Map<(u32, Seq<char>), Shot>
    decreases entries,
{
    if entries.len() == 0 {
        Map::empty()
    } else {
        subgraph_map(entries.drop_last()).insert(
            (entries.last().node, entries.last().attribute@),
            shot_of(*entries.last().snapshot),
        )
    }
}

/// What a snapshot holds.
pub open spec fn shot_of(snapshot: OrtGraphSnapshot) -> Shot
    decreases snapshot,
{
    Shot {
        ir: ir_state(snapshot.ir),
        ir_version: snapshot.onnx_ir_version,
        nodes: node_shots(snapshot.nodes@),
        values: value_shots(snapshot.values@),
        node_by_ort_id: snapshot.node_by_ort_id@,
        inputs: snapshot.graph_input_slots@,
        outputs: snapshot.graph_output_slots@,
        initializers: snapshot.initializers@.dom(),
        versions: version_sets(snapshot.node_schema_versions@),
        subgraphs: subgraph_map(snapshot.subgraphs@),
    }
}

/// The table of names gives back the values.
pub open spec fn names_index(names: Map<Seq<char>, u32>, values: Seq<ValueShot>) -> bool {
    &&& forall|i: int|
        0 <= i < values.len() ==> names.contains_key((#[trigger] values[i]).name)
            && names[values[i].name] == i
    &&& forall|name: Seq<char>| #[trigger]
        names.contains_key(name) ==> names[name] < values.len() && values[names[name] as int].name
            == name
}

/// Every present slot names a value.
pub open spec fn slots_live(slots: Seq<Option<u32>>, count: int) -> bool {
    forall|i: int| 0 <= i < slots.len() && (#[trigger] slots[i]) is Some ==> slots[i]->0 < count
}

/// The metadata of an initializer is that of its value.
pub open spec fn initializer_agrees(metadata: InitializerMetadata, id: u32, value: ValueShot) -> bool {
    metadata.value == id && metadata.dtype == value_dtype(value) && shape_shot(metadata.shape)
        == value_shape(value)
}

/// Distinct keys.
pub open spec fn entries_distinct(entries: Seq<SubgraphEntry>) -> bool {
    forall|i: int, j: int|
        0 <= i < j < entries.len() ==> (#[trigger] entries[i]).node != (#[trigger] entries[j]).node
            || entries[i].attribute@ != entries[j].attribute@
}

/// Strictly ascending.
pub open spec fn versions_ascend(versions: Seq<i32>) -> bool {
    forall|i: int, j: int| 0 <= i < j < versions.len() ==> versions[i] < versions[j]
}

/// The tables of a snapshot agree with each other, subgraphs aside.
pub open spec fn tables_agree(snapshot: OrtGraphSnapshot) -> bool {
    let shot = shot_of(snapshot);
    &&& shot.ir.compact
    &&& shot.ir.values.len() == shot.values.len()
    &&& shot.ir.nodes.len() == shot.nodes.len()
    &&& shot.values.len() <= u32::MAX
    &&& shot.nodes.len() <= u32::MAX
    &&& names_index(snapshot.value_by_name@, shot.values)
    &&& forall|i: int|
        0 <= i < shot.nodes.len() ==> slots_live(
            (#[trigger] shot.nodes[i]).input_slots,
            shot.values.len() as int,
        ) && slots_live(shot.nodes[i].output_slots, shot.values.len() as int)
    &&& slots_live(shot.inputs, shot.values.len() as int)
    &&& slots_live(shot.outputs, shot.values.len() as int)
    &&& forall|v: u32| #[trigger]
        snapshot.initializers@.contains_key(v) ==> v < shot.values.len() && initializer_agrees(
            snapshot.initializers@[v],
            v,
            shot.values[v as int],
        )
    &&& forall|id: usize| #[trigger]
        shot.node_by_ort_id.contains_key(id) ==> shot.node_by_ort_id[id] < shot.nodes.len()
            && shot.nodes[shot.node_by_ort_id[id] as int].ort_node_id == id
    &&& entries_distinct(snapshot.subgraphs@)
    &&& forall|domain: Seq<char>| #[trigger]
        snapshot.node_schema_versions@.contains_key(domain) ==> versions_ascend(
            snapshot.node_schema_versions@[domain]@,
        )
}

/// The tables of a snapshot and of all its subgraphs agree.
pub open spec fn well_formed(snapshot: OrtGraphSnapshot) -> bool
    decreases snapshot,
{
    tables_agree(snapshot) && entries_well_formed(snapshot.subgraphs@)
}

pub open spec fn entries_well_formed(entries: Seq<SubgraphEntry>) -> bool
    decreases entries,
{
    entries.len() == 0 || (entries_well_formed(entries.drop_last()) && well_formed(
        *entries.last().snapshot,
    ))
}

/// The value called `name`.
pub open spec fn value_named(values: Seq<ValueShot>, name: Seq<char>) -> Option<u32> {
    if exists|i: int| 0 <= i < values.len() && (#[trigger] values[i]).name == name {
        let i = choose|i: int| 0 <= i < values.len() && (#[trigger] values[i]).name == name;
        Some(i as u32)
    } else {
        None
    }
}

/// The slots that are present, in order.
pub open spec fn present(slots: Seq<Option<u32>>) -> Seq<u32>
    decreases slots.len(),
{
    if slots.len() == 0 {
        Seq::empty()
    } else {
        match slots.last() {
            Some(value) => present(slots.drop_last()).push(value),
            None => present(slots.drop_last()),
        }
    }
}

/// Lowers dimensions to the IR, interning symbols in order.
pub open spec fn lower_dims(ir: IrState, dims: Seq<DimShot>) -> (IrState, Seq<IrDim>)
    decreases dims.len(),
{
    if dims.len() == 0 {
        (ir, Seq::empty())
    } else {
        let (state, ids) = lower_dims(ir, dims.drop_last());
        match dims.last() {
            DimShot::Static(size) => (state, ids.push(IrDim::Static(size))),
            DimShot::Symbolic(name) => {
                let next = with_symbol(state, name);
                (next, ids.push(IrDim::Symbolic(next.symbols[name])))
            },
        }
    }
}

/// The IR after a value was declared: what is not known of it is marked so.
pub open spec fn declare_value(ir: IrState, value: ValueShot) -> IrState {
    let id = ir.values.len() as u32;
    let dims = match value_shape(value) {
        Some(dims) => dims,
        None => Seq::empty(),
    };
    let (state, shape) = lower_dims(ir, dims);
    IrState {
        values: state.values.push(
            IrValue {
                name: value.name,
                dtype: match value_dtype(value) {
                    Some(dtype) => dtype,
                    None => 0,
                },
                shape,
                producer: None,
                uses: Set::empty(),
            },
        ),
        untyped: if value_dtype(value) is Some {
            state.untyped
        } else {
            state.untyped.insert(id)
        },
        unshaped: if value_shape(value) is Some {
            state.unshaped
        } else {
            state.unshaped.insert(id)
        },
        ..state
    }
}

/// The snapshot after a value was declared.
pub open spec fn shot_with_value(shot: Shot, value: ValueShot) -> Shot {
    Shot { ir: declare_value(shot.ir, value), values: shot.values.push(value), ..shot }
}

/// The IR node of a captured node: holes among its outputs are left out.
pub open spec fn ir_node_of(node: NodeShot) -> IrNode {
    IrNode {
        name: node.name,
        op_type: node.op_type,
        domain: node.domain,
        inputs: node.input_slots,
        outputs: present(node.output_slots),
    }
}

/// The snapshot after a node was captured, subgraphs aside.
pub open spec fn shot_with_node(shot: Shot, node: NodeShot) -> Shot {
    Shot {
        ir: with_node(shot.ir, ir_node_of(node)),
        nodes: shot.nodes.push(node),
        node_by_ort_id: shot.node_by_ort_id.insert(node.ort_node_id, shot.nodes.len() as u32),
        versions: shot.versions.insert(
            node.domain,
            (if shot.versions.contains_key(node.domain) {
                shot.versions[node.domain]
            } else {
                Set::empty()
            }).insert(node.since_version),
        ),
        ..shot
    }
}

/// The snapshot after a body was attached to a node.
pub open spec fn shot_with_subgraph(
    shot: Shot,
    node: u32,
    attribute: Seq<char>,
    body: Shot,
) -> Shot {
    Shot {
        ir: IrState {
            subgraphs: shot.ir.subgraphs.insert((node, attribute), body.ir),
            ..shot.ir
        },
        subgraphs: shot.subgraphs.insert((node, attribute), body),
        ..shot
    }
}

} // verus!
