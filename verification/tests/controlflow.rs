use std::sync::Arc;

use onnxruntime_mlx::engine::{NodeAttributes, NodeDesc, SubgraphDesc, TensorRef};
use onnxruntime_mlx::ops::controlflow::{if_claim, loop_claim, register, scan_claim};
use onnxruntime_mlx::ops::if_run::{branch_outputs, choose_branch, read_host_bool};
use onnxruntime_mlx::ops::loop_run::{loop_body, LoopRun};
use onnxruntime_mlx::ops::scan_machine::{ScanAction, ScanMachine};
use onnxruntime_mlx::ops::scan_run::{scan_attr, scan_form, Decline, ScanRun};
use onnxruntime_mlx::ops::views::{
    list_text, normalized_axis, BodyNodeView, GraphView, InputView, NodeView, OutputView, PortKind,
    TensorInfo, Unclaimable,
};
use onnxruntime_mlx::registry::{CompileShapeSafety, OpRegistry, Operator};

const BOOL: u32 = 9;
const INT64: u32 = 7;
const FLOAT: u32 = 1;

fn tensor_input(dtype: u32, shape: &[i64]) -> InputView {
    InputView {
        present: true,
        kind: Some(PortKind::Tensor),
        info: Some(TensorInfo {
            dtype,
            shape: shape.to_vec(),
        }),
        host_readable: true,
        constant: true,
    }
}

fn tensor_output(shape: &[i64]) -> OutputView {
    OutputView {
        kind: Some(PortKind::Tensor),
        info: Some(TensorInfo {
            dtype: FLOAT,
            shape: shape.to_vec(),
        }),
    }
}

fn body(attribute: &str, inputs: &[&str], outputs: &[&str]) -> GraphView {
    GraphView {
        attribute: attribute.to_string(),
        input_names: inputs.iter().map(|name| name.to_string()).collect(),
        output_names: outputs.iter().map(|name| name.to_string()).collect(),
        nodes: vec![],
        uses_float64: false,
        all_claimable: true,
        first_unclaimable: None,
    }
}

fn view(inputs: Vec<InputView>, outputs: Vec<OutputView>, subgraphs: Vec<GraphView>) -> NodeView {
    NodeView {
        inputs,
        outputs,
        subgraphs,
        num_scan_inputs: -1,
        scan_input_axes: None,
        scan_input_directions: None,
        scan_output_axes: None,
        scan_output_directions: None,
    }
}

fn branch_node() -> NodeView {
    view(
        vec![tensor_input(BOOL, &[])],
        vec![tensor_output(&[2])],
        vec![
            body("then_branch", &[], &["a"]),
            body("else_branch", &[], &["b"]),
        ],
    )
}

fn refused(result: Result<(), String>) -> String {
    result.err().unwrap()
}

#[test]
fn branches_are_claimed_whole() {
    assert_eq!(if_claim(&branch_node()), Ok(()));
}

#[test]
fn branch_refusals_come_in_order() {
    let mut node = branch_node();
    node.inputs.push(tensor_input(BOOL, &[]));
    assert_eq!(
        refused(if_claim(&node)),
        "expects 1 condition input and at least 1 output, got 2in/1out"
    );
    let mut node = branch_node();
    node.outputs[0].kind = Some(PortKind::Other("sequence".to_string()));
    assert_eq!(
        refused(if_claim(&node)),
        "If: sequence output[0] cannot cross the ORT 1.29 plugin EP tensor boundary"
    );
    let mut node = branch_node();
    node.inputs[0].kind = None;
    assert_eq!(
        refused(if_claim(&node)),
        "If: input[0] type information is unavailable"
    );
    let mut node = branch_node();
    node.inputs[0].info = Some(TensorInfo {
        dtype: FLOAT,
        shape: vec![],
    });
    assert_eq!(
        refused(if_claim(&node)),
        "condition input must have bool dtype"
    );
    let mut node = branch_node();
    node.inputs[0].host_readable = false;
    assert_eq!(
        refused(if_claim(&node)),
        "condition must be a graph input/initializer (data-dependent conditions run on CPU)"
    );
    let mut node = branch_node();
    node.subgraphs.pop();
    assert_eq!(
        refused(if_claim(&node)),
        "expects then_branch and else_branch subgraphs"
    );
    let mut node = branch_node();
    node.subgraphs[1].attribute = "other\"".to_string();
    assert_eq!(
        refused(if_claim(&node)),
        "unsupported subgraph attribute \"other\\\"\""
    );
    let mut node = branch_node();
    node.subgraphs[0].input_names.push("x".to_string());
    assert_eq!(
        refused(if_claim(&node)),
        "then_branch must have no formal inputs"
    );
    let mut node = branch_node();
    node.subgraphs[1].output_names.push("x".to_string());
    assert_eq!(
        refused(if_claim(&node)),
        "else_branch has 2 outputs but the If node has 1"
    );
    let mut node = branch_node();
    node.subgraphs[1].uses_float64 = true;
    assert_eq!(
        refused(if_claim(&node)),
        "else_branch contains an unclaimable operation"
    );
    let mut node = branch_node();
    node.subgraphs[1].attribute = "then_branch".to_string();
    assert_eq!(
        refused(if_claim(&node)),
        "requires both then_branch and else_branch"
    );
}

#[test]
fn absent_inputs_cross_no_boundary() {
    let mut node = loop_node();
    node.inputs.push(InputView {
        present: false,
        kind: None,
        info: None,
        host_readable: false,
        constant: false,
    });
    node.outputs.push(tensor_output(&[]));
    node.subgraphs[0].input_names.push("s2".to_string());
    node.subgraphs[0].output_names.push("t2".to_string());
    assert_eq!(loop_claim(&node), Ok(()));
}

fn loop_node() -> NodeView {
    view(
        vec![
            tensor_input(INT64, &[]),
            tensor_input(BOOL, &[]),
            tensor_input(FLOAT, &[2]),
        ],
        vec![tensor_output(&[2])],
        vec![body("body", &["i", "c", "s"], &["c", "t"])],
    )
}

#[test]
fn static_loops_are_claimed() {
    assert_eq!(loop_claim(&loop_node()), Ok(()));
    let mut node = loop_node();
    node.subgraphs[0].output_names[0] = "d".to_string();
    assert!(loop_claim(&node).is_err());
    node.subgraphs[0].nodes.push(BodyNodeView {
        op_type: "Identity".to_string(),
        input_names: vec!["c".to_string()],
        output_names: vec!["d".to_string()],
    });
    assert_eq!(loop_claim(&node), Ok(()));
}

#[test]
fn other_loops_are_refused_with_one_text() {
    let text = "Loop: only static carried-state loops (constant trip-count + passthrough cond, no \
                scan outputs) are unrolled; scan outputs / dynamic control stay on CPU";
    let mut node = loop_node();
    node.inputs[0].constant = false;
    assert_eq!(refused(loop_claim(&node)), text);
    let mut node = loop_node();
    node.outputs.push(tensor_output(&[1]));
    assert_eq!(refused(loop_claim(&node)), text);
    let mut node = loop_node();
    node.subgraphs[0].all_claimable = false;
    assert_eq!(refused(loop_claim(&node)), text);
    let mut node = loop_node();
    node.inputs.truncate(1);
    assert_eq!(refused(loop_claim(&node)), text);
    let mut node = loop_node();
    node.subgraphs[0].input_names[1] = String::new();
    node.subgraphs[0].output_names[0] = String::new();
    assert_eq!(refused(loop_claim(&node)), text);
    let mut node = loop_node();
    node.inputs[2].kind = Some(PortKind::Other("optional".to_string()));
    assert_eq!(
        refused(loop_claim(&node)),
        "Loop: optional input[2] cannot cross the ORT 1.29 plugin EP tensor boundary"
    );
}

fn scan_node() -> NodeView {
    let mut node = view(
        vec![tensor_input(FLOAT, &[2]), tensor_input(FLOAT, &[5, 2])],
        vec![tensor_output(&[2]), tensor_output(&[5, 2])],
        vec![body("body", &["s", "x"], &["t", "y"])],
    );
    node.num_scan_inputs = 1;
    node
}

#[test]
fn scans_are_claimed() {
    assert_eq!(scan_claim(&scan_node()), Ok(()));
    let mut node = scan_node();
    node.scan_input_axes = Some(vec![-2]);
    node.scan_output_axes = Some(vec![1]);
    node.scan_input_directions = Some(vec![1]);
    node.scan_output_directions = Some(vec![1]);
    assert_eq!(scan_claim(&node), Ok(()));
}

#[test]
fn scan_refusals_name_what_is_wrong() {
    let mut node = scan_node();
    node.num_scan_inputs = 3;
    assert_eq!(
        refused(scan_claim(&node)),
        "num_scan_inputs must be positive and no greater than the 2 inputs, got 3"
    );
    let mut node = scan_node();
    node.scan_input_axes = Some(vec![0, 0]);
    assert_eq!(
        refused(scan_claim(&node)),
        "scan_input_axes has 2 values, expected 1"
    );
    let mut node = scan_node();
    node.scan_input_directions = Some(vec![2]);
    assert_eq!(
        refused(scan_claim(&node)),
        "scan_input_directions values must be 0 or 1"
    );
    let mut node = scan_node();
    node.inputs[1].info = None;
    assert_eq!(
        refused(scan_claim(&node)),
        "scan input 1 lacks tensor type/shape info"
    );
    let mut node = scan_node();
    node.scan_input_axes = Some(vec![2]);
    assert_eq!(
        refused(scan_claim(&node)),
        "scan input 1 axis 2 is invalid for rank 2"
    );
    let mut node = scan_node();
    node.inputs[1] = tensor_input(FLOAT, &[0, 2]);
    assert_eq!(
        refused(scan_claim(&node)),
        "scan input 1 axis 0 must be non-empty or dynamic, got shape [0, 2]"
    );
    let mut node = scan_node();
    node.num_scan_inputs = 2;
    node.subgraphs[0] = body("body", &["s", "x"], &["t", "y"]);
    assert_eq!(
        refused(scan_claim(&node)),
        "scan inputs must have equal known sequence lengths, got 2 and 5"
    );
    let mut node = scan_node();
    node.subgraphs[0].attribute = "other".to_string();
    assert_eq!(
        refused(scan_claim(&node)),
        "requires exactly one body subgraph"
    );
    let mut node = scan_node();
    node.subgraphs[0].input_names.pop();
    assert_eq!(
        refused(scan_claim(&node)),
        "body has 1 inputs, expected 2 carried-state plus scan inputs"
    );
    let mut node = scan_node();
    node.subgraphs[0].output_names.clear();
    assert_eq!(
        refused(scan_claim(&node)),
        "body has 0 outputs but requires at least 1 carried-state outputs"
    );
    let mut node = scan_node();
    node.outputs.pop();
    assert_eq!(
        refused(scan_claim(&node)),
        "Scan has 1 outputs but body has 2"
    );
    let mut node = scan_node();
    node.scan_output_directions = Some(vec![-1]);
    assert_eq!(
        refused(scan_claim(&node)),
        "scan_output_directions values must be 0 or 1"
    );
    let mut node = scan_node();
    node.scan_output_axes = Some(vec![-3]);
    assert_eq!(
        refused(scan_claim(&node)),
        "scan output 1 axis -3 is invalid for rank 2"
    );
    let mut node = scan_node();
    node.scan_output_axes = Some(vec![0]);
    node.outputs[1].info = None;
    assert_eq!(
        refused(scan_claim(&node)),
        "scan output 1 lacks tensor type/shape info"
    );
}

#[test]
fn unfit_bodies_are_described() {
    let mut node = scan_node();
    node.subgraphs[0].all_claimable = false;
    assert_eq!(
        refused(scan_claim(&node)),
        "body contains an unclaimable operation"
    );
    node.subgraphs[0].first_unclaimable = Some(Unclaimable {
        op_type: "Foo".to_string(),
        name: "foo_1".to_string(),
        reason: "not registered".to_string(),
    });
    assert_eq!(
        refused(scan_claim(&node)),
        "body contains an unclaimable operation: Foo 'foo_1': not registered"
    );
    node.subgraphs[0].first_unclaimable = Some(Unclaimable {
        op_type: "Foo".to_string(),
        name: String::new(),
        reason: "not registered".to_string(),
    });
    assert_eq!(
        refused(scan_claim(&node)),
        "body contains an unclaimable operation: Foo: not registered"
    );
    node.subgraphs[0].uses_float64 = true;
    assert_eq!(
        refused(scan_claim(&node)),
        "body carries float64, which MLX can only evaluate on a CPU stream — a control-flow body \
         is translated inside the parent's (GPU) plan, so it is left to ORT CPU"
    );
}

#[test]
fn axes_count_from_either_end() {
    assert_eq!(normalized_axis(0, 2), Some(0));
    assert_eq!(normalized_axis(-1, 2), Some(1));
    assert_eq!(normalized_axis(2, 2), None);
    assert_eq!(normalized_axis(-3, 2), None);
    assert_eq!(normalized_axis(0, 0), None);
    assert_eq!(list_text(&vec![]), "[]");
    assert_eq!(list_text(&vec![-1, 3]), "[-1, 3]");
}

#[test]
fn the_three_operators_are_registered() {
    let mut registry = OpRegistry::new();
    register(&mut registry);
    let found: Vec<(&str, Operator, CompileShapeSafety)> = registry
        .entries
        .iter()
        .map(|entry| {
            assert_eq!(entry.registration.domain, "");
            assert_eq!(entry.registration.min_opset, None);
            assert_eq!(entry.registration.max_opset, None);
            (
                entry.registration.op_type.as_str(),
                entry.registration.operator,
                entry.safety,
            )
        })
        .collect();
    assert_eq!(
        found,
        vec![
            ("If", Operator::If, CompileShapeSafety::Shapeless),
            ("Scan", Operator::Scan, CompileShapeSafety::ShapeKeyed),
            ("Loop", Operator::Loop, CompileShapeSafety::Shapeless),
        ]
    );
    assert!(registry.entries[1].reason.starts_with("emits MLX Slice"));
}

fn named_input() -> TensorRef {
    TensorRef::absent()
}

fn desc(op: &str, inputs: usize, bodies: &[(&str, usize)]) -> NodeDesc {
    let mut node = NodeDesc::new(
        op.to_string(),
        String::new(),
        16,
        CompileShapeSafety::Shapeless,
    );
    for _ in 0..inputs {
        node.inputs.push(named_input());
    }
    for (attribute, outputs) in bodies {
        node.subgraphs.push(SubgraphDesc {
            attr_name: attribute.to_string(),
            input_names: vec![],
            output_names: (0..*outputs).map(|i| format!("o{i}")).collect(),
            nodes: vec![],
        });
    }
    node
}

#[test]
fn the_taken_branch_is_run() {
    let node = desc("If", 1, &[("else_branch", 1), ("then_branch", 1)]);
    assert_eq!(choose_branch(&node, true), Ok(1));
    assert_eq!(choose_branch(&node, false), Ok(0));
    let node = desc("If", 1, &[("then_branch", 1)]);
    assert_eq!(
        choose_branch(&node, false),
        Err("MLX If: missing branch subgraph".to_string())
    );
    assert!(read_host_bool(Some(2)));
    assert!(!read_host_bool(Some(0)));
    assert!(!read_host_bool(None));
    assert_eq!(
        branch_outputs(&node, vec![3]),
        Err("MLX If: branch output arity mismatch".to_string())
    );
    assert_eq!(branch_outputs(&node, vec![]), Ok(vec![]));
}

#[test]
fn loops_carry_their_state() {
    let node = desc("Loop", 3, &[("body", 2)]);
    assert_eq!(loop_body(&node), Ok(0));
    assert_eq!(
        loop_body(&desc("Loop", 3, &[])),
        Err("MLX Loop: missing body subgraph".to_string())
    );
    let mut run = LoopRun::start(Some(2), true, vec![10]).unwrap();
    let mut seen = Vec::new();
    while run.has_step() {
        seen.push(run.inputs(100, 101));
        let next = run.state[0] + 1;
        run.advance(&vec![101, next]);
    }
    assert_eq!(seen, vec![vec![100, 101, 10], vec![100, 101, 11]]);
    assert_eq!(run.state, vec![12]);
    assert!(!LoopRun::start(Some(2), false, vec![1]).unwrap().has_step());
    assert!(!LoopRun::start(Some(-2), true, vec![1]).unwrap().has_step());
    assert_eq!(
        LoopRun::start(None, true, vec![]).err().unwrap(),
        "MLX Loop: null trip count"
    );
}

fn scan_desc(scans: i64, inputs: usize, outputs: usize, lists: &[(&str, Vec<i64>)]) -> NodeDesc {
    let mut node = desc("Scan", inputs, &[("body", outputs)]);
    let mut attributes = NodeAttributes::new();
    attributes
        .ints
        .insert("num_scan_inputs".to_string(), scans);
    for (name, values) in lists {
        attributes.int_arrays.insert(name.to_string(), values.clone());
    }
    node.attributes = Arc::new(attributes);
    node
}

fn started(node: &NodeDesc, state: Vec<usize>, shapes: Vec<Vec<i32>>) -> ScanMachine {
    let form = scan_form(node).unwrap();
    ScanMachine::new(ScanRun::start(node, &form, state, shapes).unwrap())
}

#[test]
fn scans_step_slice_and_stack() {
    let node = scan_desc(
        1,
        2,
        2,
        &[
            ("scan_input_axes", vec![-1]),
            ("scan_input_directions", vec![1]),
            ("scan_output_axes", vec![1]),
            ("scan_output_directions", vec![1]),
        ],
    );
    let mut machine = started(&node, vec![7], vec![vec![4, 3]]);
    let mut action = machine.begin(false, false).unwrap();
    let mut starts = Vec::new();
    let mut step = 0;
    loop {
        match action {
            ScanAction::Step(slices) => {
                assert_eq!(slices.len(), 1);
                assert_eq!(slices[0].axis, 1);
                assert_eq!(slices[0].stop, vec![4, slices[0].start[1] + 1]);
                starts.push(slices[0].start.clone());
                step += 1;
                action = machine
                    .step_done(&vec![20 + step, 40 + step], vec![1])
                    .unwrap();
            }
            ScanAction::Stack(list) => {
                assert_eq!(list, vec![(1, vec![43, 42, 41])]);
                break;
            }
            _ => panic!("unexpected action"),
        }
    }
    assert_eq!(starts, vec![vec![0, 2], vec![0, 1], vec![0, 0]]);
    assert_eq!(machine.run.state, vec![23]);
    assert!(machine.decline.is_none());
}

#[test]
fn empty_scans_take_shapes_from_a_template() {
    let node = scan_desc(1, 2, 2, &[("scan_output_axes", vec![-1])]);
    let mut machine = started(&node, vec![7], vec![vec![0, 5]]);
    assert!(machine.run.is_empty());
    match machine.begin(false, false).unwrap() {
        ScanAction::Template(shapes) => assert_eq!(shapes, vec![vec![5]]),
        _ => panic!("unexpected action"),
    }
    match machine.templates_done(&vec![vec![9], vec![2, 3]]).unwrap() {
        ScanAction::Empty(shapes) => assert_eq!(shapes, vec![vec![2, 3, 0]]),
        _ => panic!("unexpected action"),
    }
    assert_eq!(machine.run.state, vec![7]);
    let node = scan_desc(1, 2, 2, &[("scan_output_axes", vec![3])]);
    let machine = started(&node, vec![7], vec![vec![0, 5]]);
    assert_eq!(
        machine.templates_done(&vec![vec![9], vec![2]]).err().unwrap(),
        "MLX Scan: output axis 3 invalid for rank 2"
    );
}

#[test]
fn scans_without_outputs_end_with_the_state() {
    let node = scan_desc(1, 2, 1, &[]);
    let mut machine = started(&node, vec![7], vec![vec![0]]);
    match machine.begin(false, false).unwrap() {
        ScanAction::Empty(shapes) => assert!(shapes.is_empty()),
        _ => panic!("unexpected action"),
    }
}

#[test]
fn recognised_bodies_try_the_kernel() {
    let node = scan_desc(
        4,
        6,
        3,
        &[
            ("scan_input_directions", vec![1, 1, 1, 1]),
            ("scan_output_directions", vec![0]),
        ],
    );
    let shapes = vec![vec![2, 1]; 4];
    let mut machine = started(&node, vec![1, 2], shapes.clone());
    match machine.begin(true, false).unwrap() {
        ScanAction::Kernel {
            reverse_in,
            reverse_out,
        } => assert!(reverse_in && !reverse_out),
        _ => panic!("unexpected action"),
    }
    assert!(matches!(
        machine.kernel_declined().unwrap(),
        ScanAction::Step(_)
    ));
    assert_eq!(machine.decline, Some(Decline::Unsupported));

    let mut machine = started(&node, vec![1, 2], shapes.clone());
    assert!(matches!(
        machine.begin(true, true).unwrap(),
        ScanAction::Step(_)
    ));
    assert_eq!(machine.decline, Some(Decline::Disabled));

    let mut machine = started(&node, vec![1, 2], shapes);
    machine.begin(false, false).unwrap();
    assert_eq!(machine.decline, Some(Decline::NotRecognised));
    assert_eq!(
        Decline::NotRecognised.text(),
        "selective-scan-shaped body was not recognised -> unrolled per timestep"
    );

    let crosswise = scan_desc(
        4,
        6,
        3,
        &[("scan_input_directions", vec![1, 0, 1, 1])],
    );
    let mut machine = started(&crosswise, vec![1, 2], vec![vec![2, 1]; 4]);
    machine.begin(true, false).unwrap();
    assert_eq!(machine.decline, Some(Decline::NotFusable));
}

#[test]
fn scan_failures_are_reported() {
    let node = desc("Scan", 1, &[]);
    assert_eq!(
        scan_form(&node).err().unwrap(),
        "MLX Scan: missing num_scan_inputs"
    );
    let mut node = scan_desc(1, 2, 2, &[]);
    node.subgraphs.clear();
    assert_eq!(
        scan_form(&node).err().unwrap(),
        "MLX Scan: missing body subgraph"
    );
    let fail = |node: &NodeDesc, state: Vec<usize>, shapes: Vec<Vec<i32>>| {
        let form = scan_form(node).unwrap();
        ScanRun::start(node, &form, state, shapes).err().unwrap()
    };
    assert_eq!(
        fail(&scan_desc(1, 3, 1, &[]), vec![1, 2], vec![vec![2]]),
        "MLX Scan: body output arity"
    );
    assert_eq!(
        fail(
            &scan_desc(1, 2, 2, &[("scan_input_axes", vec![1])]),
            vec![1],
            vec![vec![2]]
        ),
        "MLX Scan: input axis 1 invalid for rank 1"
    );
    assert_eq!(
        fail(
            &scan_desc(2, 2, 1, &[]),
            vec![],
            vec![vec![2], vec![3]]
        ),
        "MLX Scan: scan input sequence lengths differ"
    );
    let node = scan_desc(1, 2, 2, &[("scan_output_axes", vec![0, 0])]);
    assert_eq!(
        scan_attr(&node, "scan_output_axes", 1).err().unwrap(),
        "MLX Scan: scan_output_axes has 2 values, expected 1"
    );
    assert_eq!(scan_attr(&node, "scan_input_axes", 2), Ok(vec![0, 0]));
    let node = scan_desc(1, 2, 2, &[("scan_output_axes", vec![5])]);
    let mut machine = started(&node, vec![1], vec![vec![1]]);
    machine.begin(false, false).unwrap();
    assert_eq!(
        machine.step_done(&vec![1, 2], vec![0]).err().unwrap(),
        "MLX Scan: output axis 5 invalid for rank 1"
    );
}
