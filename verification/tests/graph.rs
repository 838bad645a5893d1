use std::collections::HashMap;
use std::sync::Arc;

use onnx_runtime_ir::{DataType, Graph, Node, NodeId, SymbolConstraints, SymbolId};
use onnxruntime_mlx::engine::{
    InitData, NodeAttributes, NodeDesc, OutRef, Src, SubgraphDesc, TensorRef,
};
use onnxruntime_mlx::init_data::{
    initializer_byte_count, own_init_data, snapshot_initializer_data, tensor_attribute_bytes,
};
use onnxruntime_mlx::names::NameSet;
use onnxruntime_mlx::plan::Plan;
use onnxruntime_mlx::plan_builder::tensor_ref;
use onnxruntime_mlx::planner::{
    any_control_flow, build_plan, draft_plan, fused_boundary_indices, has_compile_barrier,
    PlanDraft, PlanGates, RawBoundary,
};
use onnxruntime_mlx::raw_graph::{
    RawGraph, RawNode, RawSubgraph, RawTensor, RawType, RawValueInfo,
};
use onnxruntime_mlx::registry::CompileShapeSafety;
use onnxruntime_mlx::shape_const::mark_shape_constants;
use onnxruntime_mlx::sidecars::{
    GraphSidecars, NodeFacts, RawInitBytes, RawInitializer, RawSideNode, RawSideSubgraph,
    RawSidecars,
};
use onnxruntime_mlx::snapshot::{DimensionMetadata, OrtGraphSnapshot, ValueTypeKind};

const FLOAT: u32 = 1;
const DOUBLE: u32 = 11;

fn typed(name: &str, dtype: u32, dims: &[i64], symbols: &[&str]) -> Option<RawValueInfo> {
    Some(RawValueInfo {
        name: Ok(name.to_string()),
        ty: RawType::Tensor(Ok(RawTensor {
            dtype,
            dims: dims.to_vec(),
            symbols: symbols.iter().map(|symbol| symbol.to_string()).collect(),
        })),
    })
}

fn value(name: &str) -> Option<RawValueInfo> {
    typed(name, FLOAT, &[4], &[""])
}

fn raw_node(
    id: usize,
    op_type: &str,
    inputs: Vec<Option<RawValueInfo>>,
    outputs: Vec<Option<RawValueInfo>>,
) -> RawNode {
    RawNode {
        inputs: Ok(inputs),
        outputs: Ok(outputs),
        id: Ok(id),
        name: Ok(op_type.to_lowercase()),
        domain: Ok(String::new()),
        op_type: Ok(op_type.to_string()),
        since_version: Ok(13),
        subgraphs: Ok(vec![]),
    }
}

fn raw_graph(
    inputs: Vec<Option<RawValueInfo>>,
    outputs: Vec<Option<RawValueInfo>>,
    initializers: Vec<Option<RawValueInfo>>,
    nodes: Vec<RawNode>,
) -> RawGraph {
    RawGraph {
        ir_version: Ok(9),
        opsets: Ok(vec![(String::new(), 13)]),
        inputs: Ok(inputs),
        outputs: Ok(outputs),
        initializers: Ok(initializers),
        nodes: Ok(nodes.into_iter().map(Some).collect()),
    }
}

fn batched(name: &str) -> Option<RawValueInfo> {
    typed(name, FLOAT, &[-1, 4], &["batch", ""])
}

fn synthetic_graph() -> RawGraph {
    let mut add = raw_node(
        42,
        "Add",
        vec![batched("input"), None, value("weight")],
        vec![batched("output")],
    );
    add.name = Ok("add".to_string());
    raw_graph(
        vec![batched("input")],
        vec![batched("output")],
        vec![value("weight")],
        vec![add],
    )
}

fn capture(raw: &RawGraph) -> OrtGraphSnapshot {
    assert!(raw.is_small());
    OrtGraphSnapshot::from_ort(Some(raw)).unwrap()
}

fn failure_of(raw: &RawGraph) -> String {
    assert!(raw.is_small());
    match OrtGraphSnapshot::from_ort(Some(raw)) {
        Ok(_) => panic!("the graph was captured"),
        Err(failure) => failure,
    }
}

fn synthetic_snapshot() -> OrtGraphSnapshot {
    capture(&synthetic_graph())
}

fn named(snapshot: &OrtGraphSnapshot, name: &str) -> u32 {
    *snapshot.value_by_name.get(name).unwrap()
}

#[test]
fn preserves_topology_optional_slots_and_boundaries() {
    let snapshot = synthetic_snapshot();
    let node = snapshot.node_by_ort_id[&42];
    assert_eq!(
        snapshot.ir.topological_order().unwrap(),
        vec![NodeId(node)]
    );
    assert_eq!(snapshot.nodes[node as usize].input_slots[1], None);
    assert_eq!(
        snapshot.ir.inputs.iter().map(|id| id.0).collect::<Vec<_>>(),
        snapshot
            .graph_input_slots
            .iter()
            .flatten()
            .copied()
            .collect::<Vec<_>>()
    );
    assert_eq!(
        snapshot.ir.outputs.iter().map(|id| id.0).collect::<Vec<_>>(),
        snapshot
            .graph_output_slots
            .iter()
            .flatten()
            .copied()
            .collect::<Vec<_>>()
    );
    assert_eq!(
        snapshot
            .ir
            .uses(onnx_runtime_ir::ValueId(named(&snapshot, "input"))),
        vec![(NodeId(node), 0)]
    );
    assert!(snapshot.ir.initializers.is_empty());
    snapshot.ir.validate().unwrap();
}

#[test]
fn preserves_symbolic_shapes_domains_versions_and_initializers() {
    let snapshot = synthetic_snapshot();
    let input = named(&snapshot, "input") as usize;
    let shape = snapshot.values[input]
        .tensor
        .as_ref()
        .unwrap()
        .shape
        .as_ref()
        .unwrap();
    assert_eq!(shape.len(), 2);
    assert!(matches!(&shape[0], DimensionMetadata::Symbolic(name) if name == "batch"));
    assert!(matches!(shape[1], DimensionMetadata::Static(4)));
    assert_eq!(
        snapshot.ir.symbol_constraints.values().next(),
        Some(&SymbolConstraints::new(
            SymbolId(0),
            Some("batch".to_string())
        ))
    );
    assert_eq!(snapshot.node_schema_versions.get(""), Some(&vec![13]));
    assert_eq!(snapshot.onnx_ir_version, 9);
    assert_eq!(snapshot.ir.opset_imports[""], 13);
    let weight = named(&snapshot, "weight");
    let shape = snapshot.initializers[&weight].shape.as_ref().unwrap();
    assert_eq!(shape.len(), 1);
    assert!(matches!(shape[0], DimensionMetadata::Static(4)));
}

#[test]
fn indexes_control_flow_subgraphs_in_both_views() {
    let mut raw = synthetic_graph();
    if let Ok(nodes) = &mut raw.nodes {
        nodes[0].as_mut().unwrap().subgraphs = Ok(vec![RawSubgraph {
            attribute: "then_branch".to_string(),
            graph: Some(Box::new(synthetic_graph())),
        }]);
    }
    let snapshot = capture(&raw);
    let parent = snapshot.node_by_ort_id[&42];
    assert_eq!(snapshot.ir.subgraphs.len(), 1);
    assert!(snapshot
        .ir
        .subgraphs
        .contains_key(&(NodeId(parent), "then_branch".to_string())));
    assert_eq!(snapshot.subgraphs.len(), 1);
    assert_eq!(snapshot.subgraphs[0].node, parent);
    assert_eq!(snapshot.subgraphs[0].attribute, "then_branch");
    assert_eq!(snapshot.subgraphs[0].snapshot.ir.num_nodes(), 1);
}

#[test]
fn preserves_optional_output_slots_without_ir_placeholders() {
    let mut raw = synthetic_graph();
    if let Ok(nodes) = &mut raw.nodes {
        nodes[0].as_mut().unwrap().outputs = Ok(vec![None, batched("output")]);
    }
    let snapshot = capture(&raw);
    let node = snapshot.node_by_ort_id[&42];
    let output = named(&snapshot, "output");
    assert_eq!(
        snapshot.nodes[node as usize].output_slots,
        vec![None, Some(output)]
    );
    assert_eq!(
        snapshot.ir.node(NodeId(node)).outputs,
        vec![onnx_runtime_ir::ValueId(output)]
    );
    snapshot.ir.validate().unwrap();
}

#[test]
fn unnamed_dimensions_get_a_name_of_their_own() {
    let raw = raw_graph(
        vec![typed("x", FLOAT, &[-1, 2, -1], &["", "", "n"])],
        vec![],
        vec![],
        vec![],
    );
    let snapshot = capture(&raw);
    let shape = snapshot.values[0]
        .tensor
        .as_ref()
        .unwrap()
        .shape
        .as_ref()
        .unwrap();
    assert!(matches!(&shape[0], DimensionMetadata::Symbolic(name) if name == "__ort_unknown_x_0"));
    assert!(matches!(shape[1], DimensionMetadata::Static(2)));
    assert!(matches!(&shape[2], DimensionMetadata::Symbolic(name) if name == "n"));
    let ir = snapshot.ir.value(onnx_runtime_ir::ValueId(0));
    assert_eq!(ir.dtype, DataType::Float32);
    assert_eq!(ir.shape.len(), 3);
}

#[test]
fn value_types_are_told_apart() {
    let of = |name: &str, ty: RawType| {
        Some(RawValueInfo {
            name: Ok(name.to_string()),
            ty,
        })
    };
    let raw = raw_graph(
        vec![
            of("a", RawType::Unreadable),
            of("b", RawType::Other(2)),
            of("c", RawType::Other(6)),
            of("d", RawType::Other(3)),
            None,
            of("", RawType::Unreadable),
        ],
        vec![],
        vec![],
        vec![],
    );
    let snapshot = capture(&raw);
    let kinds: Vec<ValueTypeKind> = snapshot.values.iter().map(|value| value.type_kind).collect();
    assert_eq!(
        kinds,
        vec![
            ValueTypeKind::Unknown,
            ValueTypeKind::Sequence,
            ValueTypeKind::Optional,
            ValueTypeKind::Other
        ]
    );
    assert_eq!(
        snapshot.graph_input_slots,
        vec![Some(0), Some(1), Some(2), Some(3), None, None]
    );
    assert_eq!(snapshot.ir.inputs.len(), 4);
}

#[test]
fn one_name_is_one_value() {
    let raw = raw_graph(
        vec![value("x")],
        vec![value("y")],
        vec![],
        vec![
            raw_node(1, "Relu", vec![value("x")], vec![value("y")]),
            raw_node(2, "Neg", vec![value("y"), value("x")], vec![value("z")]),
        ],
    );
    let snapshot = capture(&raw);
    assert_eq!(snapshot.values.len(), 3);
    assert_eq!(snapshot.nodes[1].input_slots, vec![Some(1), Some(0)]);
}

#[test]
fn capture_failures_are_reported() {
    assert_eq!(
        OrtGraphSnapshot::from_ort(None).err().unwrap(),
        "ORT supplied a null graph"
    );
    let mut raw = synthetic_graph();
    raw.opsets = Ok(vec![(String::new(), 0)]);
    assert_eq!(
        failure_of(&raw),
        "ORT reported invalid opset version 0 for \"\""
    );
    raw.opsets = Ok(vec![
        ("com.microsoft".to_string(), 1),
        ("com.microsoft".to_string(), 2),
    ]);
    assert_eq!(
        failure_of(&raw),
        "ORT reported conflicting opset versions 1 and 2 for \"com.microsoft\""
    );
    raw.opsets = Err("reading opsets: broken".to_string());
    assert_eq!(failure_of(&raw), "reading opsets: broken");
    let mut raw = synthetic_graph();
    if let Ok(nodes) = &mut raw.nodes {
        nodes[0].as_mut().unwrap().subgraphs = Ok(vec![RawSubgraph {
            attribute: String::new(),
            graph: Some(Box::new(synthetic_graph())),
        }]);
    }
    assert_eq!(
        failure_of(&raw),
        "ORT returned an invalid control-flow subgraph"
    );
}

#[test]
fn the_default_domain_has_one_name() {
    let mut raw = synthetic_graph();
    raw.opsets = Ok(vec![("ai.onnx".to_string(), 13)]);
    if let Ok(nodes) = &mut raw.nodes {
        nodes[0].as_mut().unwrap().domain = Ok("ai.onnx".to_string());
    }
    let snapshot = capture(&raw);
    assert_eq!(snapshot.ir.opset_imports[""], 13);
    assert_eq!(snapshot.nodes[0].domain, "");
    assert_eq!(snapshot.node_schema_versions.get(""), Some(&vec![13]));
}

fn facts(uses_float64: bool) -> NodeFacts {
    NodeFacts {
        shape_safety: CompileShapeSafety::Shapeless,
        uses_float64,
        attributes: Arc::new(NodeAttributes::new()),
    }
}

fn side_node(ort_id: usize) -> RawSideNode {
    RawSideNode {
        ort_id: Ok(ort_id),
        facts: facts(false),
        subgraphs: Ok(vec![]),
    }
}

fn no_sidecars() -> RawSidecars {
    RawSidecars {
        nodes: Ok(vec![]),
        initializers: Ok(vec![]),
    }
}

fn boundary(names: &[Option<&str>]) -> RawBoundary {
    RawBoundary {
        slots: Ok(names
            .iter()
            .map(|slot| slot.map(|name| Ok(name.to_string())))
            .collect()),
    }
}

#[test]
fn boundaries_preserve_optional_slots_and_original_indices() {
    let raw = raw_graph(
        vec![None, value("input")],
        vec![None, value("output")],
        vec![],
        vec![],
    );
    let snapshot = capture(&raw);
    let input = named(&snapshot, "input");
    let output = named(&snapshot, "output");
    assert_eq!(snapshot.graph_input_slots, vec![None, Some(input)]);
    assert_eq!(snapshot.graph_output_slots, vec![None, Some(output)]);
    let indices = fused_boundary_indices(
        &boundary(&[None, Some(""), Some("input"), Some("output")]),
        &snapshot,
    )
    .unwrap();
    assert_eq!(indices, HashMap::from([(input, 2), (output, 3)]));
    assert_eq!(
        fused_boundary_indices(&boundary(&[Some("gone")]), &snapshot)
            .err()
            .unwrap(),
        "snapshot is missing fused-node boundary \"gone\""
    );
}

#[test]
fn initializer_copy_owns_bytes() {
    let bytes = Arc::new(vec![1u8, 2, 3, 4]);
    let source = InitData {
        shape: vec![4],
        dtype: 2,
        count: bytes.len(),
        owned: None,
    };
    let copied = own_init_data(&source, &Some(Arc::clone(&bytes))).unwrap();
    assert_eq!(
        copied.owned.as_deref().unwrap().as_slice(),
        bytes.as_slice()
    );
    assert_eq!(copied.shape, vec![4]);
    assert_eq!(copied.dtype, 2);
    assert_eq!(copied.count, 4);
    assert!(source.owned.is_none());
}

#[test]
fn initializer_sizes_follow_the_element_type() {
    let layout = |dtype: u32, count: usize| InitData {
        shape: vec![count as i64],
        dtype,
        count,
        owned: None,
    };
    assert_eq!(initializer_byte_count(&layout(FLOAT, 3)), Ok(12));
    assert_eq!(initializer_byte_count(&layout(DOUBLE, 3)), Ok(24));
    assert_eq!(initializer_byte_count(&layout(21, 3)), Ok(2));
    assert_eq!(
        initializer_byte_count(&layout(99, 1)),
        Err("initializer has unsupported dtype 99".to_string())
    );
    assert_eq!(
        initializer_byte_count(&layout(DOUBLE, usize::MAX)),
        Err("initializer byte count overflows".to_string())
    );
    assert_eq!(tensor_attribute_bytes(7, 3), Some(24));
    assert_eq!(tensor_attribute_bytes(99, 3), None);
    assert_eq!(tensor_attribute_bytes(7, usize::MAX), None);
}

#[test]
fn initializer_layouts_are_static() {
    let snapshot = capture(&raw_graph(
        vec![],
        vec![],
        vec![
            typed("ok", FLOAT, &[2, 3], &["", ""]),
            typed("open", FLOAT, &[-1], &["n"]),
            typed("strange", 200, &[1], &[""]),
            Some(RawValueInfo {
                name: Ok("list".to_string()),
                ty: RawType::Other(2),
            }),
            typed("huge", FLOAT, &[i64::MAX, i64::MAX], &["", ""]),
        ],
        vec![],
    ));
    let layout = snapshot_initializer_data(&snapshot, 0).unwrap();
    assert_eq!(layout.shape, vec![2, 3]);
    assert_eq!(layout.count, 6);
    assert_eq!(layout.dtype, FLOAT);
    assert!(layout.owned.is_none());
    let failure = |id: u32| snapshot_initializer_data(&snapshot, id).err().unwrap();
    assert_eq!(failure(1), "initializer open has a symbolic dimension");
    assert_eq!(failure(2), "initializer strange has no tensor dtype");
    assert_eq!(failure(3), "initializer list has no tensor dtype");
    assert_eq!(failure(4), "initializer huge element count overflows");
}

fn output(name: &str) -> OutRef {
    OutRef {
        name: name.to_string(),
        external: false,
        ctx_index: 0,
        otype: 0,
    }
}

fn node(op_type: &str, inputs: Vec<TensorRef>, outputs: Vec<OutRef>) -> NodeDesc {
    let mut node = NodeDesc::new(
        op_type.to_string(),
        String::new(),
        13,
        CompileShapeSafety::Shapeless,
    );
    node.inputs = inputs;
    node.outputs = outputs;
    node
}

#[test]
fn shape_constants_flow_into_nested_enclosing_capture() {
    let outer = tensor_ref("outer_shape".to_string(), Src::Initializer, 0, None);
    let nested = node(
        "Cast",
        vec![tensor_ref(
            "outer_shape".to_string(),
            Src::Intermediate,
            0,
            None,
        )],
        vec![output("nested_out")],
    );
    let mut parent = node("If", vec![outer], vec![output("parent_out")]);
    parent.subgraphs.push(SubgraphDesc {
        attr_name: "then_branch".to_string(),
        input_names: vec!["formal".to_string()],
        output_names: vec!["nested_out".to_string()],
        nodes: vec![nested],
    });
    let mut nodes = vec![parent];
    let mut inherited = NameSet::new();
    inherited.insert("outer_shape");
    mark_shape_constants(&mut nodes, &inherited);
    assert!(nodes[0].inputs[0].shape_const);
    assert!(nodes[0].subgraphs[0].nodes[0].inputs[0].shape_const);
}

#[test]
fn formal_inputs_hide_outer_shape_constants() {
    let nested = node(
        "Cast",
        vec![tensor_ref("n".to_string(), Src::Intermediate, 0, None)],
        vec![output("out")],
    );
    let mut parent = node("Loop", vec![], vec![output("p")]);
    parent.subgraphs.push(SubgraphDesc {
        attr_name: "body".to_string(),
        input_names: vec!["n".to_string()],
        output_names: vec![],
        nodes: vec![nested],
    });
    let mut nodes = vec![parent];
    let mut inherited = NameSet::new();
    inherited.insert("n");
    mark_shape_constants(&mut nodes, &inherited);
    assert!(!nodes[0].subgraphs[0].nodes[0].inputs[0].shape_const);
}

#[test]
fn ir_topological_order_is_stable_over_insertion_order() {
    let mut graph = Graph::new();
    let input = graph.create_named_value("input", DataType::Float32, vec![]);
    let intermediate = graph.create_named_value("intermediate", DataType::Float32, vec![]);
    let output = graph.create_named_value("output", DataType::Float32, vec![]);
    let consumer = graph.insert_node(Node::new(
        NodeId(0),
        "Identity",
        vec![Some(intermediate)],
        vec![output],
    ));
    let producer = graph.insert_node(Node::new(
        NodeId(0),
        "Identity",
        vec![Some(input)],
        vec![intermediate],
    ));
    assert_eq!(graph.topological_order().unwrap(), vec![producer, consumer]);
}

fn chain_graph() -> RawGraph {
    raw_graph(
        vec![value("x")],
        vec![value("z")],
        vec![value("w")],
        vec![
            raw_node(9, "Relu", vec![value("y"), None], vec![value("z")]),
            raw_node(8, "Add", vec![value("x"), value("w")], vec![value("y")]),
        ],
    )
}

fn chain_sidecars() -> RawSidecars {
    RawSidecars {
        nodes: Ok(vec![side_node(8), side_node(9)]),
        initializers: Ok(vec![RawInitializer {
            name: Ok("w".to_string()),
            bytes: RawInitBytes::Read(Some(Arc::new(vec![7u8; 16]))),
        }]),
    }
}

fn planned(raw: &RawGraph, side: &RawSidecars, inputs: &[Option<&str>], outputs: &[Option<&str>]) -> PlanDraft {
    assert!(raw.is_small());
    build_plan(Some(raw), side, &boundary(inputs), &boundary(outputs), true)
        .unwrap()
        .unwrap()
}

#[test]
fn plans_run_producers_first_and_resolve_every_slot() {
    let draft = planned(
        &chain_graph(),
        &chain_sidecars(),
        &[None, Some("x")],
        &[Some("z")],
    );
    assert_eq!(draft.nodes.len(), 2);
    let add = &draft.nodes[0];
    assert_eq!(add.op_type, "Add");
    assert_eq!(add.node_id, 8);
    assert_eq!(add.name, "add");
    assert_eq!(add.inputs[0].source, Src::CtxInput);
    assert_eq!(add.inputs[0].ctx_index, 1);
    assert_eq!(add.inputs[1].source, Src::Initializer);
    let init = add.inputs[1].init.as_ref().unwrap();
    assert_eq!(init.owned.as_deref().unwrap(), &vec![7u8; 16]);
    assert_eq!(init.shape, vec![4]);
    assert!(!add.outputs[0].external);
    let relu = &draft.nodes[1];
    assert_eq!(relu.inputs[0].source, Src::Intermediate);
    assert_eq!(relu.inputs[0].name, "y");
    assert_eq!(relu.inputs[1].source, Src::Absent);
    assert!(relu.outputs[0].external);
    assert_eq!(relu.outputs[0].ctx_index, 0);
    assert_eq!(relu.outputs[0].otype, FLOAT);
    assert!(!draft.has_control_flow && !draft.has_compile_barrier && !draft.uses_float64);
}

#[test]
fn plans_drop_names_unless_they_are_kept() {
    let raw = chain_graph();
    assert!(raw.is_small());
    let draft = build_plan(
        Some(&raw),
        &chain_sidecars(),
        &boundary(&[Some("x")]),
        &boundary(&[Some("z")]),
        false,
    )
    .unwrap()
    .unwrap();
    assert_eq!(draft.nodes[0].name, "");
    assert_eq!(draft.nodes[0].node_id, 0);
}

#[test]
fn plan_failures_are_reported() {
    let fail = |raw: &RawGraph, side: &RawSidecars, inputs: &[Option<&str>]| {
        assert!(raw.is_small());
        build_plan(
            Some(raw),
            side,
            &boundary(inputs),
            &boundary(&[Some("z")]),
            true,
        )
        .err()
        .unwrap()
    };
    assert_eq!(
        fail(&chain_graph(), &chain_sidecars(), &[]),
        "MLX could not resolve subgraph input x"
    );
    assert_eq!(
        fail(&chain_graph(), &chain_sidecars(), &[Some("nope")]),
        "snapshot is missing fused-node boundary \"nope\""
    );
    let cyclic = raw_graph(
        vec![],
        vec![],
        vec![],
        vec![
            raw_node(8, "A", vec![value("b")], vec![value("a")]),
            raw_node(9, "B", vec![value("a")], vec![value("b")]),
            raw_node(7, "C", vec![], vec![value("z")]),
        ],
    );
    let mut side = chain_sidecars();
    side.initializers = Ok(vec![]);
    if let Ok(nodes) = &mut side.nodes {
        nodes.push(side_node(7));
    }
    assert_eq!(
        fail(&cyclic, &side, &[]),
        "optimized graph IR has no topological order: cycle detected in graph"
    );
    let mut side = chain_sidecars();
    if let Ok(nodes) = &mut side.nodes {
        nodes.push(side_node(55));
    }
    assert_eq!(
        fail(&chain_graph(), &side, &[Some("x")]),
        "snapshot is missing raw node 55"
    );
    assert_eq!(
        build_plan(
            None,
            &no_sidecars(),
            &boundary(&[]),
            &boundary(&[]),
            true
        )
        .err()
        .unwrap(),
        "ORT supplied a null graph"
    );
}

#[test]
fn nodes_without_facts_give_no_plan() {
    let raw = chain_graph();
    assert!(raw.is_small());
    let mut side = chain_sidecars();
    side.nodes = Ok(vec![side_node(8)]);
    assert!(build_plan(
        Some(&raw),
        &side,
        &boundary(&[Some("x")]),
        &boundary(&[Some("z")]),
        true
    )
    .unwrap()
    .is_none());
}

#[test]
fn bodies_are_planned_by_attribute_with_what_they_capture() {
    let body = |op: &str| {
        raw_graph(
            vec![],
            vec![value("r")],
            vec![],
            vec![raw_node(1, op, vec![value("x")], vec![value("r")])],
        )
    };
    let mut branch = raw_node(5, "If", vec![value("c")], vec![value("z")]);
    branch.subgraphs = Ok(vec![
        RawSubgraph {
            attribute: "then_branch".to_string(),
            graph: Some(Box::new(body("Relu"))),
        },
        RawSubgraph {
            attribute: "else_branch".to_string(),
            graph: Some(Box::new(body("Neg"))),
        },
    ]);
    let raw = raw_graph(
        vec![value("c"), value("x")],
        vec![value("z")],
        vec![],
        vec![branch],
    );
    let side_body = |attribute: &str| RawSideSubgraph {
        attribute: attribute.to_string(),
        sidecars: RawSidecars {
            nodes: Ok(vec![side_node(1)]),
            initializers: Ok(vec![]),
        },
    };
    let mut node = side_node(5);
    node.subgraphs = Ok(vec![side_body("then_branch"), side_body("else_branch")]);
    let side = RawSidecars {
        nodes: Ok(vec![node]),
        initializers: Ok(vec![]),
    };
    let draft = planned(&raw, &side, &[Some("c"), Some("x")], &[Some("z")]);
    assert!(draft.has_control_flow);
    assert!(any_control_flow(&draft.nodes));
    assert!(!has_compile_barrier(&draft.nodes));
    let bodies = &draft.nodes[0].subgraphs;
    assert_eq!(bodies[0].attr_name, "else_branch");
    assert_eq!(bodies[1].attr_name, "then_branch");
    assert_eq!(bodies[1].nodes[0].op_type, "Relu");
    assert_eq!(bodies[1].nodes[0].inputs[0].source, Src::CtxInput);
    assert_eq!(bodies[1].nodes[0].inputs[0].ctx_index, 1);
    assert!(!bodies[1].nodes[0].outputs[0].external);
    assert_eq!(bodies[1].output_names, vec!["r".to_string()]);
}

#[test]
fn drafts_can_be_made_from_a_snapshot() {
    let snapshot = capture(&chain_graph());
    let sidecars = GraphSidecars::capture(&chain_sidecars(), &snapshot).unwrap();
    assert!(sidecars.covers(&snapshot));
    let draft = draft_plan(
        &snapshot,
        &sidecars,
        &boundary(&[Some("x")]),
        &boundary(&[Some("z")]),
        false,
    )
    .unwrap();
    assert_eq!(draft.nodes.len(), 2);
}

fn all_gates() -> PlanGates {
    PlanGates {
        dedicated_decode_stream: true,
        native_attention_decode: true,
        decode: true,
        prefill: true,
        general: true,
    }
}

fn node_with_output(otype: u32) -> NodeDesc {
    let mut node = NodeDesc::new(
        "Elu".to_string(),
        String::new(),
        6,
        CompileShapeSafety::Shapeless,
    );
    node.outputs.push(OutRef {
        name: "y".to_string(),
        external: true,
        ctx_index: 0,
        otype,
    });
    node
}

#[test]
fn float64_plan_requests_the_cpu_stream() {
    let plan = Plan::new(vec![node_with_output(DOUBLE)]);
    assert!(plan.requires_cpu_stream);
    assert!(!plan.dedicated_decode_stream);
}

#[test]
fn float32_plan_keeps_the_gpu_stream() {
    let plan = Plan::new(vec![node_with_output(FLOAT)]);
    assert!(!plan.requires_cpu_stream);
}

#[test]
fn double_precision_turns_the_compiled_paths_off() {
    let draft = |uses_float64: bool| PlanDraft {
        nodes: vec![node_with_output(FLOAT)],
        has_control_flow: true,
        has_compile_barrier: false,
        uses_float64,
    };
    let plan = draft(true).into_plan(&all_gates());
    assert!(plan.requires_cpu_stream && !plan.dedicated_decode_stream);
    assert!(!plan.compiled.enabled && !plan.prefill.enabled && !plan.general.enabled);
    let plan = draft(false).into_plan(&all_gates());
    assert!(!plan.requires_cpu_stream && plan.dedicated_decode_stream);
    assert!(plan.compiled.enabled && plan.prefill.enabled && plan.general.enabled);
    assert!(plan.general.control_flow_specialization_enabled);
}

#[test]
fn barriers_and_control_flow_block_paths() {
    let draft = |has_control_flow: bool, has_compile_barrier: bool| PlanDraft {
        nodes: vec![],
        has_control_flow,
        has_compile_barrier,
        uses_float64: false,
    };
    assert!(!draft(false, false).fixed_paths_blocked());
    assert!(draft(true, false).fixed_paths_blocked());
    assert!(draft(false, true).fixed_paths_blocked());
    assert!(!draft(true, false).general_path_blocked());
    assert!(draft(false, true).general_path_blocked());
    assert!(has_compile_barrier(&vec![node(
        "PackedMultiHeadAttention",
        vec![],
        vec![]
    )]));
    assert!(any_control_flow(&vec![node("SequenceMap", vec![], vec![])]));
}
