//! What claim predicates see of a node.

use vstd::prelude::*;

use crate::rejection::texts;
use crate::text::{decimal, decimal_text, join2, join3, same_text, signed_decimal, signed_text};
use vstd::string::StringExecFns;

verus! {

/// The ONNX number of the element type `int64`.
pub const INT64: u32 = 7;

/// The ONNX number of the element type `bool`.
pub const BOOL: u32 = 9;

/// What crosses a slot: a tensor, or something else with a description.
pub enum PortKind {
    Tensor,
    Other(String),
}

/// A tensor type. An unknown dimension is minus one.
pub struct TensorInfo {
    pub dtype: u32,
    pub shape: Vec<i64>,
}

/// An input slot.
pub struct InputView {
    pub present: bool,
    pub kind: Option<PortKind>,
    pub info: Option<TensorInfo>,
    /// The value is a graph input, an initializer or comes from an outer scope.
    pub host_readable: bool,
    /// The value is a constant initializer.
    pub constant: bool,
}

/// An output slot.
pub struct OutputView {
    pub kind: Option<PortKind>,
    pub info: Option<TensorInfo>,
}

/// A node of a body.
pub struct BodyNodeView {
    pub op_type: String,
    pub input_names: Vec<String>,
    pub output_names: Vec<String>,
}

/// A node of a body that the registry refuses.
pub struct Unclaimable {
    pub op_type: String,
    pub name: String,
    pub reason: String,
}

/// The body of a control-flow node.
pub struct GraphView {
    pub attribute: String,
    pub input_names: Vec<String>,
    pub output_names: Vec<String>,
    pub nodes: Vec<BodyNodeView>,
    pub uses_float64: bool,
    pub all_claimable: bool,
    pub first_unclaimable: Option<Unclaimable>,
}

/// A control-flow node.
pub struct NodeView {
    pub inputs: Vec<InputView>,
    pub outputs: Vec<OutputView>,
    pub subgraphs: Vec<GraphView>,
    /// The attribute `num_scan_inputs`, minus one if there is none.
    pub num_scan_inputs: i64,
    pub scan_input_axes: Option<Vec<i64>>,
    pub scan_input_directions: Option<Vec<i64>>,
    pub scan_output_axes: Option<Vec<i64>>,
    pub scan_output_directions: Option<Vec<i64>>,
}

/// The element type of an input is `dtype`.
pub open spec fn input_is(node: NodeView, i: int, dtype: u32) -> bool {
    &&& 0 <= i < node.inputs@.len()
    &&& node.inputs@[i].info matches Some(info)
    &&& info.dtype == dtype
}

impl NodeView {
    /// Whether the element type of an input is `dtype`.
    pub fn input_has(&self, i: usize, dtype: u32) -> (same: bool)
        ensures
            same == input_is(*self, i as int, dtype),
            same <==> i < self.inputs@.len() && self.inputs@[i as int].info is Some
                && self.inputs@[i as int].info->0.dtype == dtype,
    {
        if i < self.inputs.len() {
            match &self.inputs[i].info {
                Some(info) => info.dtype == dtype,
                None => false,
            }
        } else {
            false
        }
    }
}

/// The position that an axis stands for: negative axes count from the end.
pub open spec fn axis_position(axis: int, rank: nat) -> Option<nat> {
    let position = if axis < 0 {
        axis + rank
    } else {
        axis
    };
    if 0 <= position < rank {
        Some(position as nat)
    } else {
        None
    }
}

/// The position that an axis stands for.
pub fn normalized_axis(axis: i64, rank: usize) -> (position: Option<usize>)
    ensures
        match position {
            Some(position) => axis_position(axis as int, rank as nat) == Some(position as nat),
            None => axis_position(axis as int, rank as nat) is None,
        },
        position is Some <==> -(rank as int) <= axis < rank,
        position matches Some(place) ==> place == (if axis < 0 {
            axis + rank
        } else {
            axis as int
        }),
{
    if axis >= 0 {
        let wide: u64 = axis as u64;
        if wide < rank as u64 {
            Some(wide as usize)
        } else {
            None
        }
    } else {
        let back: u64 = (-(axis + 1)) as u64;
        if back < rank as u64 {
            Some(rank - 1 - back as usize)
        } else {
            None
        }
    }
}

/// The numbers of a list, separated by commas, each after the first with a space before it.
pub open spec fn listed(values: Seq<i64>) -> Seq<char>
    decreases values.len(),
{
    if values.len() == 0 {
        Seq::empty()
    } else if values.len() == 1 {
        signed_decimal(values[0] as int)
    } else {
        listed(values.drop_last()) + ", "@ + signed_decimal(values.last() as int)
    }
}

/// A list in square brackets.
pub open spec fn bracketed(values: Seq<i64>) -> Seq<char> {
    "["@ + listed(values) + "]"@
}

/// Writes a list in square brackets.
pub fn list_text(values: &Vec<i64>) -> (text: String)
    ensures
        text@ == bracketed(values@),
{
    let mut inner: String = String::new();
    let mut at: usize = 0;
    proof {
        assert(values@.take(0) =~= Seq::<i64>::empty());
    }
    while at < values.len()
        invariant
            at <= values@.len(),
            inner@ == listed(values@.take(at as int)),
        decreases values@.len() - at,
    {
        proof {
            assert(values@.take(at + 1).drop_last() =~= values@.take(at as int));
            assert(values@.take(at + 1).last() == values@[at as int]);
        }
        if at == 0 {
            inner = signed_text(values[at]);
            assert(values@.take(1)[0] == values@[0]);
        } else {
            inner.append(", ");
            inner.append(signed_text(values[at]).as_str());
        }
        at = at + 1;
    }
    proof {
        assert(values@.take(values@.len() as int) =~= values@);
    }
    join3("[", inner.as_str(), "]")
}

/// The first of two verdicts; `None` claims the node.
pub open spec fn first_refusal(a: Option<Seq<char>>, b: Option<Seq<char>>) -> Option<Seq<char>> {
    match a {
        Some(reason) => Some(reason),
        None => b,
    }
}

/// What a verdict says; `None` claims the node.
pub open spec fn verdict(result: Result<(), String>) -> Option<Seq<char>> {
    match result {
        Ok(_) => None,
        Err(reason) => Some(reason@),
    }
}

/// Why something cannot cross a slot of the fused node.
pub open spec fn crossing_refusal(
    op: Seq<char>,
    side: Seq<char>,
    i: int,
    kind: Option<PortKind>,
) -> Option<Seq<char>> {
    match kind {
        Some(PortKind::Tensor) => None,
        Some(PortKind::Other(description)) => Some(
            op + ": "@ + description@ + " "@ + side + "["@ + decimal(i as nat)
                + "] cannot cross the ORT 1.29 plugin EP tensor boundary"@,
        ),
        None => Some(
            op + ": "@ + side + "["@ + decimal(i as nat) + "] type information is unavailable"@,
        ),
    }
}

/// The first refusal among the inputs from `k` on.
pub open spec fn inputs_refusal(
    inputs: Seq<InputView>,
    op: Seq<char>,
    k: int,
) -> Option<Seq<char>>
    decreases inputs.len() - k,
{
    if k < 0 || k >= inputs.len() {
        None
    } else {
        first_refusal(
            if inputs[k].present {
                crossing_refusal(op, "input"@, k, inputs[k].kind)
            } else {
                None
            },
            inputs_refusal(inputs, op, k + 1),
        )
    }
}

/// The first refusal among the outputs from `k` on.
pub open spec fn outputs_refusal(
    outputs: Seq<OutputView>,
    op: Seq<char>,
    k: int,
) -> Option<Seq<char>>
    decreases outputs.len() - k,
{
    if k < 0 || k >= outputs.len() {
        None
    } else {
        first_refusal(
            crossing_refusal(op, "output"@, k, outputs[k].kind),
            outputs_refusal(outputs, op, k + 1),
        )
    }
}

/// Only tensors can cross the boundary of a fused node; an absent input crosses nothing.
pub open spec fn boundary_refusal(node: NodeView, op: Seq<char>) -> Option<Seq<char>> {
    first_refusal(
        inputs_refusal(node.inputs@, op, 0),
        outputs_refusal(node.outputs@, op, 0),
    )
}

fn check_crossing(op: &str, side: &str, i: usize, kind: &Option<PortKind>) -> (result: Result<
    (),
    String,
>)
    ensures
        verdict(result) == crossing_refusal(op@, side@, i as int, *kind),
{
    match kind {
        Some(PortKind::Tensor) => Ok(()),
        Some(PortKind::Other(description)) => {
            let mut text: String = join3(op, ": ", description.as_str());
            text.append(" ");
            text.append(side);
            text.append("[");
            text.append(decimal_text(i as u64).as_str());
            text.append("] cannot cross the ORT 1.29 plugin EP tensor boundary");
            Err(text)
        },
        None => {
            let mut text: String = join3(op, ": ", side);
            text.append("[");
            text.append(decimal_text(i as u64).as_str());
            text.append("] type information is unavailable");
            Err(text)
        },
    }
}

/// Refuses a node with a slot that carries no tensor.
pub fn require_tensor_control_flow_boundary(node: &NodeView, op: &str) -> (result: Result<
    (),
    String,
>)
    ensures
        verdict(result) == boundary_refusal(*node, op@),
{
    let mut i: usize = 0;
    while i < node.inputs.len()
        invariant
            i <= node.inputs@.len(),
            inputs_refusal(node.inputs@, op@, 0) == inputs_refusal(node.inputs@, op@, i as int),
        decreases node.inputs@.len() - i,
    {
        if node.inputs[i].present {
            match check_crossing(op, "input", i, &node.inputs[i].kind) {
                Err(reason) => {
                    return Err(reason);
                },
                Ok(_) => {},
            }
        }
        i = i + 1;
    }
    let mut k: usize = 0;
    while k < node.outputs.len()
        invariant
            k <= node.outputs@.len(),
            inputs_refusal(node.inputs@, op@, 0) is None,
            outputs_refusal(node.outputs@, op@, 0) == outputs_refusal(
                node.outputs@,
                op@,
                k as int,
            ),
        decreases node.outputs@.len() - k,
    {
        match check_crossing(op, "output", k, &node.outputs[k].kind) {
            Err(reason) => {
                return Err(reason);
            },
            Ok(_) => {},
        }
        k = k + 1;
    }
    Ok(())
}

/// Every node of the body can be translated, and none works on 64-bit floating-point tensors.
pub open spec fn body_fits(body: GraphView) -> bool {
    !body.uses_float64 && body.all_claimable
}

pub fn body_claimable(body: &GraphView) -> (fits: bool)
    ensures
        fits == body_fits(*body),
        fits <==> !body.uses_float64 && body.all_claimable,
{
    !body.uses_float64 && body.all_claimable
}

/// Why a body is refused: its element type, or its first refused node.
pub open spec fn body_refusal(body: GraphView) -> Seq<char> {
    if body.uses_float64 {
        "body carries float64, which MLX can only evaluate on a CPU stream — a control-flow body is translated inside the parent's (GPU) plan, so it is left to ORT CPU"@
    } else {
        match body.first_unclaimable {
            None => "body contains an unclaimable operation"@,
            Some(node) => "body contains an unclaimable operation: "@ + (if node.name@.len() == 0 {
                node.op_type@
            } else {
                node.op_type@ + " '"@ + node.name@ + "'"@
            }) + ": "@ + node.reason@,
        }
    }
}

/// Names the first refused node of a body.
pub fn body_rejection(body: &GraphView) -> (reason: String)
    ensures
        reason@ == body_refusal(*body),
{
    if body.uses_float64 {
        return "body carries float64, which MLX can only evaluate on a CPU stream — a control-flow body is translated inside the parent's (GPU) plan, so it is left to ORT CPU".to_owned();
    }
    match &body.first_unclaimable {
        None => "body contains an unclaimable operation".to_owned(),
        Some(node) => {
            let mut label: String = node.op_type.clone();
            if !node.name.as_str().is_empty() {
                label = join3(node.op_type.as_str(), " '", node.name.as_str());
                label.append("'");
            }
            let mut text: String = join2(
                "body contains an unclaimable operation: ",
                label.as_str(),
            );
            text.append(": ");
            text.append(node.reason.as_str());
            text
        },
    }
}

/// A node of the body copies the value called `from` to the value called `to`.
pub open spec fn copies(node: BodyNodeView, from: Seq<char>, to: Seq<char>) -> bool {
    node.op_type@ == "Identity"@ && texts(node.input_names@) == seq![from] && texts(
        node.output_names@,
    ) == seq![to]
}

/// The condition that the body puts out is the one it was given: the same value, or a copy.
pub open spec fn condition_passes(body: GraphView) -> bool {
    &&& body.input_names@.len() >= 2
    &&& body.output_names@.len() >= 1
    &&& ({
        let given = body.input_names@[1]@;
        let put_out = body.output_names@[0]@;
        &&& given.len() > 0
        &&& put_out.len() > 0
        &&& given == put_out || exists|i: int|
            0 <= i < body.nodes@.len() && copies(#[trigger] body.nodes@[i], given, put_out)
    })
}

/// Whether the condition that a loop body puts out is the one it was given.
pub fn loop_cond_is_passthrough(body: &GraphView) -> (passes: bool)
    ensures
        passes == condition_passes(*body),
{
    if body.input_names.len() < 2 || body.output_names.len() == 0 {
        return false;
    }
    let given: &str = body.input_names[1].as_str();
    let put_out: &str = body.output_names[0].as_str();
    if given.is_empty() || put_out.is_empty() {
        return false;
    }
    if same_text(given, put_out) {
        return true;
    }
    let mut at: usize = 0;
    while at < body.nodes.len()
        invariant
            at <= body.nodes@.len(),
            body.input_names@.len() >= 2,
            body.output_names@.len() >= 1,
            given@ == body.input_names@[1]@,
            put_out@ == body.output_names@[0]@,
            given@.len() > 0,
            put_out@.len() > 0,
            given@ != put_out@,
            forall|i: int|
                0 <= i < at ==> !copies(#[trigger] body.nodes@[i], given@, put_out@),
        decreases body.nodes@.len() - at,
    {
        let node: &BodyNodeView = &body.nodes[at];
        let copy: bool = same_text(node.op_type.as_str(), "Identity") && node.input_names.len() == 1
            && node.output_names.len() == 1 && same_text(node.input_names[0].as_str(), given)
            && same_text(node.output_names[0].as_str(), put_out);
        proof {
            let ins = texts(node.input_names@);
            let outs = texts(node.output_names@);
            if copy {
                assert(ins =~= seq![given@]);
                assert(outs =~= seq![put_out@]);
            }
            if copies(*node, given@, put_out@) {
                assert(ins.len() == 1 && ins[0] == given@);
                assert(outs.len() == 1 && outs[0] == put_out@);
            }
        }
        if copy {
            return true;
        }
        at = at + 1;
    }
    false
}

} // verus!
