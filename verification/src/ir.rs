//! The owned graph IR of `onnx_runtime_ir`, seen through what the planner reads and writes of it.
//!
//! Nodes and values are identified by the dense numbers that the IR hands out.

use vstd::prelude::*;

use onnx_runtime_ir::{DataType, Dim, Graph, Node};

verus! {

pub type NodeId = u32;

pub type ValueId = u32;

/// `onnx_runtime_ir::Graph`, opaque to the proofs; [`ir_state`] says what it holds.
#[verifier::external_type_specification]
#[verifier::external_body]
pub struct ExGraph(onnx_runtime_ir::Graph);

/// A dimension of a value in the IR.
#[derive(Clone, Copy, Debug, PartialEq, Eq, Structural)]
pub enum IrDim {
    Static(usize),
    Symbolic(u32),
}

/// A node of the IR.
#[verifier::ext_equal]
pub struct IrNode {
    pub name: Seq<char>,
    pub op_type: Seq<char>,
    pub domain: Seq<char>,
    pub inputs: Seq<Option<u32>>,
    pub outputs: Seq<u32>,
}

/// A value of the IR: its description, the node that produces it, and the input slots that read it.
#[verifier::ext_equal]
pub struct IrValue {
    pub name: Seq<char>,
    pub dtype: i32,
    pub shape: Seq<IrDim>,
    pub producer: Option<u32>,
    pub uses: Set<(u32, u32)>,
}

/// What a graph holds.
///
/// `compact` says that no node and no value was ever removed, so that ids number the entries of
/// `nodes` and `values` without gaps.
#[verifier::ext_equal]
pub struct IrState {
    pub compact: bool,
    pub nodes: Seq<IrNode>,
    pub values: Seq<IrValue>,
    pub inputs: Seq<u32>,
    pub outputs: Seq<u32>,
    pub opsets: Map<Seq<char>, u64>,
    pub symbols: Map<Seq<char>, u32>,
    pub next_symbol: u32,
    pub untyped: Set<u32>,
    pub unshaped: Set<u32>,
    pub subgraphs: Map<(u32, Seq<char>), IrState>,
}

/// What `graph` holds.
pub uninterp spec fn ir_state(graph: onnx_runtime_ir::Graph) -> IrState;

/// The state of a graph with nothing in it.
pub open spec fn empty_state() -> IrState {
    IrState {
        compact: true,
        nodes: Seq::empty(),
        values: Seq::empty(),
        inputs: Seq::empty(),
        outputs: Seq::empty(),
        opsets: Map::empty(),
        symbols: Map::empty(),
        next_symbol: 0,
        untyped: Set::empty(),
        unshaped: Set::empty(),
        subgraphs: Map::empty(),
    }
}

/// `Graph::new`: an empty graph.
#[verifier::external_body]
pub(crate) fn new_graph() -> (graph: Graph)
    ensures
        ir_state(graph) == empty_state(),
{
    Graph::new()
}

/// `Graph::clone`, which its crate derives: a graph that holds the same.
#[verifier::external_body]
pub(crate) fn clone_graph(graph: &Graph) -> (copy: Graph)
    ensures
        ir_state(copy) == ir_state(*graph),
{
    graph.clone()
}

/// The insertion into `Graph::opset_imports`: sets the version of `domain` and returns the one it
/// replaces.
#[verifier::external_body]
pub(crate) fn import_opset(graph: &mut Graph, domain: String, version: u64) -> (previous: Option<
    u64,
>)
    ensures
        ir_state(*final(graph)) == (IrState {
            opsets: ir_state(*old(graph)).opsets.insert(domain@, version),
            ..ir_state(*old(graph))
        }),
        previous == (if ir_state(*old(graph)).opsets.contains_key(domain@) {
            Some(ir_state(*old(graph)).opsets[domain@])
        } else {
            None
        }),
{
    graph.opset_imports.insert(domain, version)
}

/// The state after the symbol `name` was interned.
pub open spec fn with_symbol(state: IrState, name: Seq<char>) -> IrState {
    if state.symbols.contains_key(name) {
        state
    } else {
        IrState {
            symbols: state.symbols.insert(name, state.next_symbol),
            next_symbol: (state.next_symbol + 1) as u32,
            ..state
        }
    }
}

/// `Graph::intern_symbol`: the symbol of that name, made with the next number if there is none.
#[verifier::external_body]
pub(crate) fn intern_symbol(graph: &mut Graph, name: &str) -> (symbol: u32)
    requires
        ir_state(*old(graph)).next_symbol < u32::MAX,
    ensures
        ir_state(*final(graph)) == with_symbol(ir_state(*old(graph)), name@),
        symbol == ir_state(*final(graph)).symbols[name@],
{
    graph.intern_symbol(name).0
}

/// `Graph::create_named_value`: appends a value that nothing produces or reads.
///
/// `dtype` is an element type number that `DataType::from_onnx` knows, or zero for
/// `DataType::Undefined`.
#[verifier::external_body]
pub(crate) fn create_named_value(
    graph: &mut Graph,
    name: String,
    dtype: i32,
    shape: &Vec<IrDim>,
) -> (value: u32)
    requires
        ir_state(*old(graph)).compact,
        ir_state(*old(graph)).values.len() <= u32::MAX,
        dtype == 0 || known_dtype(dtype),
    ensures
        value == ir_state(*old(graph)).values.len(),
        ir_state(*final(graph)) == (IrState {
            values: ir_state(*old(graph)).values.push(
                IrValue { name: name@, dtype, shape: shape@, producer: None, uses: Set::empty() },
            ),
            ..ir_state(*old(graph))
        }),
{
    let dtype = DataType::from_onnx(dtype).unwrap_or(DataType::Undefined);
    let shape = shape.iter().map(|dim| match *dim {
        IrDim::Static(size) => Dim::Static(size),
        IrDim::Symbolic(symbol) => Dim::Symbolic(onnx_runtime_ir::SymbolId(symbol)),
    }).collect();
    graph.create_named_value(name, dtype, shape).0
}

/// `Graph::mark_value_type_unknown`.
#[verifier::external_body]
pub(crate) fn mark_type_unknown(graph: &mut Graph, value: u32)
    ensures
        ir_state(*final(graph)) == (IrState {
            untyped: ir_state(*old(graph)).untyped.insert(value),
            ..ir_state(*old(graph))
        }),
{
    graph.mark_value_type_unknown(onnx_runtime_ir::ValueId(value))
}

/// `Graph::mark_value_shape_unknown`.
#[verifier::external_body]
pub(crate) fn mark_shape_unknown(graph: &mut Graph, value: u32)
    ensures
        ir_state(*final(graph)) == (IrState {
            unshaped: ir_state(*old(graph)).unshaped.insert(value),
            ..ir_state(*old(graph))
        }),
{
    graph.mark_value_shape_unknown(onnx_runtime_ir::ValueId(value))
}

/// `Graph::add_input`: appends a live value to the graph inputs.
#[verifier::external_body]
pub(crate) fn add_input(graph: &mut Graph, value: u32)
    requires
        ir_state(*old(graph)).compact,
        value < ir_state(*old(graph)).values.len(),
    ensures
        ir_state(*final(graph)) == (IrState {
            inputs: ir_state(*old(graph)).inputs.push(value),
            ..ir_state(*old(graph))
        }),
{
    graph.add_input(onnx_runtime_ir::ValueId(value))
}

/// `Graph::add_output`: appends a live value to the graph outputs.
#[verifier::external_body]
pub(crate) fn add_output(graph: &mut Graph, value: u32)
    requires
        ir_state(*old(graph)).compact,
        value < ir_state(*old(graph)).values.len(),
    ensures
        ir_state(*final(graph)) == (IrState {
            outputs: ir_state(*old(graph)).outputs.push(value),
            ..ir_state(*old(graph))
        }),
{
    graph.add_output(onnx_runtime_ir::ValueId(value))
}

/// The slots of `inputs` that hold `value`, as uses by `node`.
pub open spec fn slots_of(node: u32, inputs: Seq<Option<u32>>, value: int) -> Set<(u32, u32)> {
    Set::new(
        |e: (u32, u32)| e.0 == node && e.1 < inputs.len() && inputs[e.1 as int] == Some(
            value as u32,
        ),
    )
}

/// The state after `node` was appended: its outputs are produced by it, its inputs read by it.
pub open spec fn with_node(state: IrState, node: IrNode) -> IrState {
    let id = state.nodes.len() as u32;
    IrState {
        nodes: state.nodes.push(node),
        values: Seq::new(
            state.values.len(),
            |v: int|
                IrValue {
                    producer: if node.outputs.contains(v as u32) {
                        Some(id)
                    } else {
                        state.values[v].producer
                    },
                    uses: state.values[v].uses.union(slots_of(id, node.inputs, v)),
                    ..state.values[v]
                },
        ),
        ..state
    }
}

/// `Graph::insert_node` on a node made by `Node::new`: appends the node and links it to the values
/// it reads and produces.
#[verifier::external_body]
pub(crate) fn insert_node(
    graph: &mut Graph,
    name: String,
    op_type: String,
    domain: String,
    inputs: &Vec<Option<u32>>,
    outputs: &Vec<u32>,
) -> (id: u32)
    requires
        ir_state(*old(graph)).compact,
        ir_state(*old(graph)).nodes.len() <= u32::MAX,
        ir_state(*old(graph)).values.len() <= u32::MAX + 1,
        inputs@.len() <= u32::MAX,
    ensures
        id == ir_state(*old(graph)).nodes.len(),
        ir_state(*final(graph)) == with_node(
            ir_state(*old(graph)),
            IrNode {
                name: name@,
                op_type: op_type@,
                domain: domain@,
                inputs: inputs@,
                outputs: outputs@,
            },
        ),
{
    let inputs = inputs.iter().map(|slot| slot.map(onnx_runtime_ir::ValueId)).collect();
    let outputs = outputs.iter().map(|value| onnx_runtime_ir::ValueId(*value)).collect();
    let mut node = Node::new(onnx_runtime_ir::NodeId(0), op_type, inputs, outputs);
    node.name = name;
    node.domain = domain;
    graph.insert_node(node).0
}

/// The insertion into `Graph::subgraphs`.
#[verifier::external_body]
pub(crate) fn insert_subgraph(graph: &mut Graph, node: u32, attribute: String, body: Graph)
    ensures
        ir_state(*final(graph)) == (IrState {
            subgraphs: ir_state(*old(graph)).subgraphs.insert((node, attribute@), ir_state(body)),
            ..ir_state(*old(graph))
        }),
{
    graph.subgraphs.insert((onnx_runtime_ir::NodeId(node), attribute), body);
}

/// `p` produces a value that `n` reads.
pub open spec fn ir_feeds(state: IrState, p: int, n: int) -> bool {
    exists|i: int|
        0 <= i < state.nodes[n].inputs.len() && #[trigger] state.nodes[n].inputs[i] is Some
            && state.nodes[n].inputs[i]->0 < state.values.len()
            && state.values[state.nodes[n].inputs[i]->0 as int].producer == Some(p as u32)
}

/// `n` is listed as a reader of a value among the outputs of `p`.
pub open spec fn ir_read_by(state: IrState, p: int, n: int) -> bool {
    exists|i: int, slot: u32|
        0 <= i < state.nodes[p].outputs.len() && #[trigger] state.nodes[p].outputs[i]
            < state.values.len() && #[trigger] state.values[state.nodes[p].outputs[i] as int].uses.contains((n as u32, slot))
}

/// Strictly ascending.
pub open spec fn ascends(ids: Seq<u32>) -> bool {
    forall|i: int, j: int| 0 <= i < j < ids.len() ==> ids[i] < ids[j]
}

/// `Graph::predecessors`: the producers of a live node's inputs, ascending and without repeats.
#[verifier::external_body]
pub(crate) fn predecessors(graph: &Graph, node: u32) -> (ids: Vec<u32>)
    requires
        ir_state(*graph).compact,
        node < ir_state(*graph).nodes.len(),
    ensures
        ascends(ids@),
        forall|p: u32| #[trigger] ids@.contains(p) <==> ir_feeds(ir_state(*graph), p as int, node as int),
{
    graph.predecessors(onnx_runtime_ir::NodeId(node)).into_iter().map(|id| id.0).collect()
}

/// `Graph::successors`: the readers of a live node's outputs, ascending and without repeats.
#[verifier::external_body]
pub(crate) fn successors(graph: &Graph, node: u32) -> (ids: Vec<u32>)
    requires
        ir_state(*graph).compact,
        node < ir_state(*graph).nodes.len(),
    ensures
        ascends(ids@),
        forall|n: u32| #[trigger] ids@.contains(n) <==> ir_read_by(ir_state(*graph), node as int, n as int),
{
    graph.successors(onnx_runtime_ir::NodeId(node)).into_iter().map(|id| id.0).collect()
}

/// Everything that feeds `n` is among `done`.
pub open spec fn ir_ready(state: IrState, done: Seq<u32>, n: int) -> bool {
    forall|p: int|
        0 <= p < state.nodes.len() && #[trigger] ir_feeds(state, p, n) ==> done.contains(p as u32)
}

/// Every node once, each the least of those whose feeding nodes are all listed before.
pub open spec fn ir_order(state: IrState, order: Seq<u32>) -> bool {
    &&& order.len() == state.nodes.len()
    &&& order.no_duplicates()
    &&& forall|i: int| 0 <= i < order.len() ==> #[trigger] order[i] < state.nodes.len()
    &&& forall|i: int|
        0 <= i < order.len() ==> ir_ready(state, order.take(i), (#[trigger] order[i]) as int)
    &&& forall|i: int, n: u32|
        0 <= i < order.len() && n < #[trigger] order[i] && !order.take(i).contains(n)
            ==> !#[trigger] ir_ready(state, order.take(i), n as int)
}

/// `Graph::topological_order`: producers first, ties by ascending id. It fails exactly when there
/// is no such order, with the text of `GraphError::CycleDetected`.
#[verifier::external_body]
pub(crate) fn topological_order(graph: &Graph) -> (order: Result<Vec<u32>, String>)
    requires
        ir_state(*graph).compact,
    ensures
        match order {
            Ok(ids) => ir_order(ir_state(*graph), ids@),
            Err(text) => text@ == "cycle detected in graph"@ && forall|ids: Seq<u32>|
                !#[trigger] ir_order(ir_state(*graph), ids),
        },
{
    match graph.topological_order() {
        Ok(ids) => Ok(ids.into_iter().map(|id| id.0).collect()),
        Err(error) => Err(error.to_string()),
    }
}

/// `Graph::uses`: the input slots that read a live value, ascending by node and slot.
#[verifier::external_body]
pub(crate) fn uses(graph: &Graph, value: u32) -> (slots: Vec<(u32, u32)>)
    requires
        ir_state(*graph).compact,
        value < ir_state(*graph).values.len(),
    ensures
        forall|slot: (u32, u32)| #[trigger]
            slots@.contains(slot) <==> ir_state(*graph).values[value as int].uses.contains(slot),
        forall|i: int, j: int|
            0 <= i < j < slots@.len() ==> (#[trigger] slots@[i]).0 < (#[trigger] slots@[j]).0 || (
            slots@[i].0 == slots@[j].0 && slots@[i].1 < slots@[j].1),
{
    graph.uses(onnx_runtime_ir::ValueId(value)).into_iter().map(|(node, slot)| (node.0, slot)).collect()
}

/// `Graph::value`, read for its producer.
#[verifier::external_body]
pub(crate) fn producer(graph: &Graph, value: u32) -> (node: Option<u32>)
    requires
        ir_state(*graph).compact,
        value < ir_state(*graph).values.len(),
    ensures
        node == ir_state(*graph).values[value as int].producer,
{
    graph.value(onnx_runtime_ir::ValueId(value)).producer.map(|node| node.0)
}

/// `Graph::node`, read for its operator type and its outputs.
#[verifier::external_body]
pub(crate) fn node_parts(graph: &Graph, node: u32) -> (parts: (String, Vec<u32>))
    requires
        ir_state(*graph).compact,
        node < ir_state(*graph).nodes.len(),
    ensures
        parts.0@ == ir_state(*graph).nodes[node as int].op_type,
        parts.1@ == ir_state(*graph).nodes[node as int].outputs,
{
    let node = graph.node(onnx_runtime_ir::NodeId(node));
    (node.op_type.clone(), node.outputs.iter().map(|value| value.0).collect())
}

/// The default operator domain has two spellings; the empty one stands for both.
pub open spec fn normal_domain(domain: Seq<char>) -> Seq<char> {
    if domain == "ai.onnx"@ {
        ""@
    } else {
        domain
    }
}

/// `normalize_domain`: spells the default domain as the empty string and keeps all others.
#[verifier::external_body]
pub(crate) fn normalize_domain(domain: &str) -> (normal: String)
    ensures
        normal@ == normal_domain(domain@),
{
    onnx_runtime_ir::normalize_domain(domain).to_string()
}

/// The element type numbers that the IR knows.
pub open spec fn known_dtype(code: i32) -> bool {
    1 <= code <= 26
}

/// Elements of a known type that share a byte: two for the four-bit types, four for the two-bit
/// types, else one.
pub open spec fn elements_per_byte(code: i32) -> nat {
    if 21 <= code <= 23 {
        2
    } else if 25 <= code <= 26 {
        4
    } else {
        1
    }
}

/// Bytes of one element of a known type, zero where elements share bytes or have no fixed width.
pub open spec fn element_bytes(code: i32) -> nat {
    if code == 1 || code == 6 || code == 12 {
        4
    } else if code == 7 || code == 11 || code == 13 || code == 14 {
        8
    } else if code == 15 {
        16
    } else if code == 4 || code == 5 || code == 10 || code == 16 {
        2
    } else if code == 2 || code == 3 || code == 9 || (17 <= code <= 20) || code == 24 {
        1
    } else {
        0
    }
}

/// Bytes that `count` elements of a known type take.
pub open spec fn storage_bytes(code: i32, count: nat) -> nat {
    if elements_per_byte(code) > 1 {
        (count + elements_per_byte(code) - 1) as nat / elements_per_byte(code)
    } else {
        count * element_bytes(code)
    }
}

/// `DataType::from_onnx`, asked whether it knows a number.
#[verifier::external_body]
pub(crate) fn is_known_dtype(code: i32) -> (known: bool)
    ensures
        known == known_dtype(code),
{
    DataType::from_onnx(code).is_some()
}

/// `DataType::byte_size` of a known type.
#[verifier::external_body]
pub(crate) fn byte_size(code: i32) -> (bytes: usize)
    ensures
        bytes == (if known_dtype(code) {
            element_bytes(code)
        } else {
            0
        }),
{
    DataType::from_onnx(code).map_or(0, |dtype| dtype.byte_size())
}

/// `DataType::checked_storage_bytes` of a known type: the bytes, unless they exceed the machine.
#[verifier::external_body]
pub(crate) fn checked_storage_bytes(code: i32, count: usize) -> (bytes: Option<usize>)
    requires
        known_dtype(code),
    ensures
        match bytes {
            Some(total) => total == storage_bytes(code, count as nat),
            None => storage_bytes(code, count as nat) > usize::MAX,
        },
{
    DataType::from_onnx(code).and_then(|dtype| dtype.checked_storage_bytes(count))
}

} // verus!
