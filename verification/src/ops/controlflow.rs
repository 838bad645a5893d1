//! Which `If`, `Scan` and `Loop` nodes are claimed, and their registration.
//!
//! A control-flow node is claimed whole or not at all. What is not claimed runs on the host.

use vstd::prelude::*;
use vstd::string::StringExecFns;

use crate::ops::views::{
    axis_position, body_claimable, body_fits, body_refusal, body_rejection, boundary_refusal,
    bracketed, condition_passes, first_refusal, input_is, list_text, loop_cond_is_passthrough,
    normalized_axis, require_tensor_control_flow_boundary, verdict, GraphView, NodeView, TensorInfo,
    BOOL, INT64,
};
use crate::registry::{CompileShapeSafety, EntryModel, OpRegistration, OpRegistry, Operator};
use crate::text::{
    decimal, decimal_text, join2, join3, quoted, quoted_text, same_text, signed_decimal,
    signed_text,
};

verus! {

/// Why a branch of an `If` with `outputs` outputs is refused.
pub open spec fn branch_refusal(body: GraphView, outputs: nat) -> Option<Seq<char>> {
    let name = body.attribute@;
    if name != "then_branch"@ && name != "else_branch"@ {
        Some("unsupported subgraph attribute "@ + quoted_text(name))
    } else if body.input_names@.len() != 0 {
        Some(name + " must have no formal inputs"@)
    } else if body.output_names@.len() != outputs {
        Some(
            name + " has "@ + decimal(body.output_names@.len()) + " outputs but the If node has "@
                + decimal(outputs),
        )
    } else if !body_fits(body) {
        Some(name + " contains an unclaimable operation"@)
    } else {
        None
    }
}

/// The first refusal among the branches from `k` on.
pub open spec fn branches_refusal(
    bodies: Seq<GraphView>,
    outputs: nat,
    k: int,
) -> Option<Seq<char>>
    decreases bodies.len() - k,
{
    if k < 0 || k >= bodies.len() {
        None
    } else {
        first_refusal(
            branch_refusal(bodies[k], outputs),
            branches_refusal(bodies, outputs, k + 1),
        )
    }
}

/// A body of that name is among them.
pub open spec fn has_body(bodies: Seq<GraphView>, name: Seq<char>) -> bool {
    exists|i: int| 0 <= i < bodies.len() && (#[trigger] bodies[i]).attribute@ == name
}

/// Why an `If` is refused. Its condition must be readable before anything runs, since the branch is
/// chosen while translating.
pub open spec fn if_refusal(node: NodeView) -> Option<Seq<char>> {
    let outputs = node.outputs@.len();
    if node.inputs@.len() != 1 || outputs == 0 {
        Some(
            "expects 1 condition input and at least 1 output, got "@ + decimal(node.inputs@.len())
                + "in/"@ + decimal(outputs) + "out"@,
        )
    } else if boundary_refusal(node, "If"@) is Some {
        boundary_refusal(node, "If"@)
    } else if !input_is(node, 0, BOOL) {
        Some("condition input must have bool dtype"@)
    } else if !node.inputs@[0].host_readable {
        Some("condition must be a graph input/initializer (data-dependent conditions run on CPU)"@)
    } else if node.subgraphs@.len() != 2 {
        Some("expects then_branch and else_branch subgraphs"@)
    } else if branches_refusal(node.subgraphs@, outputs, 0) is Some {
        branches_refusal(node.subgraphs@, outputs, 0)
    } else if !has_body(node.subgraphs@, "then_branch"@) || !has_body(
        node.subgraphs@,
        "else_branch"@,
    ) {
        Some("requires both then_branch and else_branch"@)
    } else {
        None
    }
}

fn check_branch(body: &GraphView, outputs: usize) -> (result: Result<(), String>)
    ensures
        verdict(result) == branch_refusal(*body, outputs as nat),
{
    let name: &str = body.attribute.as_str();
    if !same_text(name, "then_branch") && !same_text(name, "else_branch") {
        return Err(join2("unsupported subgraph attribute ", quoted(name).as_str()));
    }
    if body.input_names.len() != 0 {
        return Err(join2(name, " must have no formal inputs"));
    }
    if body.output_names.len() != outputs {
        let mut text: String = join3(
            name,
            " has ",
            decimal_text(body.output_names.len() as u64).as_str(),
        );
        text.append(" outputs but the If node has ");
        text.append(decimal_text(outputs as u64).as_str());
        return Err(text);
    }
    if !body_claimable(body) {
        return Err(join2(name, " contains an unclaimable operation"));
    }
    Ok(())
}

/// Whether an `If` is claimed.
pub fn if_claim(node: &NodeView) -> (result: Result<(), String>)
    ensures
        verdict(result) == if_refusal(*node),
{
    let outputs: usize = node.outputs.len();
    if node.inputs.len() != 1 || outputs == 0 {
        let mut text: String = join2(
            "expects 1 condition input and at least 1 output, got ",
            decimal_text(node.inputs.len() as u64).as_str(),
        );
        text.append("in/");
        text.append(decimal_text(outputs as u64).as_str());
        text.append("out");
        return Err(text);
    }
    match require_tensor_control_flow_boundary(node, "If") {
        Err(reason) => {
            return Err(reason);
        },
        Ok(_) => {},
    }
    if !node.input_has(0, BOOL) {
        return Err("condition input must have bool dtype".to_owned());
    }
    if !node.inputs[0].host_readable {
        return Err(
            "condition must be a graph input/initializer (data-dependent conditions run on CPU)".to_owned(),
        );
    }
    if node.subgraphs.len() != 2 {
        return Err("expects then_branch and else_branch subgraphs".to_owned());
    }
    let mut have_then: bool = false;
    let mut have_else: bool = false;
    let mut at: usize = 0;
    let ghost bodies = node.subgraphs@;
    while at < node.subgraphs.len()
        invariant
            at <= bodies.len(),
            bodies == node.subgraphs@,
            outputs == node.outputs@.len(),
            branches_refusal(bodies, outputs as nat, 0) == branches_refusal(
                bodies,
                outputs as nat,
                at as int,
            ),
            boundary_refusal(*node, "If"@) is None,
            node.inputs@.len() == 1,
            outputs > 0,
            input_is(*node, 0, BOOL),
            node.inputs@[0].host_readable,
            bodies.len() == 2,
            have_then == exists|i: int|
                0 <= i < at && (#[trigger] bodies[i]).attribute@ == "then_branch"@,
            have_else == exists|i: int|
                0 <= i < at && (#[trigger] bodies[i]).attribute@ == "else_branch"@,
        decreases bodies.len() - at,
    {
        let is_then: bool = same_text(node.subgraphs[at].attribute.as_str(), "then_branch");
        let is_else: bool = same_text(node.subgraphs[at].attribute.as_str(), "else_branch");
        if is_then {
            have_then = true;
        }
        if is_else {
            have_else = true;
        }
        match check_branch(&node.subgraphs[at], outputs) {
            Err(reason) => {
                return Err(reason);
            },
            Ok(_) => {},
        }
        proof {
            assert(bodies[at as int] == node.subgraphs@[at as int]);
        }
        at = at + 1;
    }
    if !have_then || !have_else {
        return Err("requires both then_branch and else_branch".to_owned());
    }
    Ok(())
}

/// A list of zeros.
pub open spec fn zeros(len: nat) -> Seq<i64> {
    Seq::new(len, |i: int| 0i64)
}

/// The values of an optional list attribute: zeros if it is missing, refused if it has another
/// length.
pub open spec fn attr_values(
    attr: Option<Vec<i64>>,
    name: Seq<char>,
    len: nat,
) -> Result<Seq<i64>, Seq<char>> {
    match attr {
        None => Ok(zeros(len)),
        Some(values) => if values@.len() == len {
            Ok(values@)
        } else {
            Err(name + " has "@ + decimal(values@.len()) + " values, expected "@ + decimal(len))
        },
    }
}

fn zero_list(len: usize) -> (list: Vec<i64>)
    ensures
        list@ == zeros(len as nat),
{
    let mut list: Vec<i64> = Vec::new();
    while list.len() < len
        invariant
            list@.len() <= len,
            forall|i: int| 0 <= i < list@.len() ==> #[trigger] list@[i] == 0,
        decreases len - list@.len(),
    {
        list.push(0);
    }
    proof {
        assert(list@ =~= zeros(len as nat));
    }
    list
}

pub(crate) fn read_attr(attr: &Option<Vec<i64>>, name: &str, len: usize) -> (values: Result<
    Vec<i64>,
    String,
>)
    ensures
        match values {
            Ok(values) => attr_values(*attr, name@, len as nat) == Ok::<Seq<i64>, Seq<char>>(
                values@,
            ),
            Err(reason) => attr_values(*attr, name@, len as nat) == Err::<Seq<i64>, Seq<char>>(
                reason@,
            ),
        },
{
    match attr {
        None => Ok(zero_list(len)),
        Some(values) => if values.len() == len {
            let copy: Vec<i64> = values.clone();
            assert(copy@ =~= values@);
            Ok(copy)
        } else {
            let mut text: String = join3(
                name,
                " has ",
                decimal_text(values.len() as u64).as_str(),
            );
            text.append(" values, expected ");
            text.append(decimal_text(len as u64).as_str());
            Err(text)
        },
    }
}

/// Every direction is forward or backward.
pub open spec fn directions_valid(values: Seq<i64>) -> bool {
    forall|i: int| 0 <= i < values.len() ==> (#[trigger] values[i] == 0 || values[i] == 1)
}

fn check_directions(values: &Vec<i64>) -> (valid: bool)
    ensures
        valid == directions_valid(values@),
{
    let mut at: usize = 0;
    while at < values.len()
        invariant
            at <= values@.len(),
            forall|i: int| 0 <= i < at ==> (#[trigger] values@[i] == 0 || values@[i] == 1),
        decreases values@.len() - at,
    {
        if values[at] != 0 && values[at] != 1 {
            return false;
        }
        at = at + 1;
    }
    true
}

/// The sequence length known after input `i` was looked at along `axis`.
pub open spec fn trip_after(
    info: Option<TensorInfo>,
    i: int,
    axis: i64,
    trip: Option<i64>,
) -> Result<Option<i64>, Seq<char>> {
    let input = "scan input "@ + decimal(i as nat);
    match info {
        None => Err(input + " lacks tensor type/shape info"@),
        Some(info) => match axis_position(axis as int, info.shape@.len()) {
            None => Err(
                input + " axis "@ + signed_decimal(axis as int) + " is invalid for rank "@
                    + decimal(info.shape@.len()),
            ),
            Some(position) => {
                let length = info.shape@[position as int];
                if length != -1 && length < 1 {
                    Err(
                        input + " axis "@ + signed_decimal(axis as int)
                            + " must be non-empty or dynamic, got shape "@ + bracketed(
                            info.shape@,
                        ),
                    )
                } else if length == -1 {
                    Ok(trip)
                } else {
                    match trip {
                        None => Ok(Some(length)),
                        Some(expected) => if length == expected {
                            Ok(trip)
                        } else {
                            Err(
                                "scan inputs must have equal known sequence lengths, got "@
                                    + signed_decimal(expected as int) + " and "@ + signed_decimal(
                                    length as int,
                                ),
                            )
                        },
                    }
                }
            },
        },
    }
}

/// The sequence length known after the first `k` scan inputs.
pub open spec fn trip_below(node: NodeView, axes: Seq<i64>, start: int, k: int) -> Result<
    Option<i64>,
    Seq<char>,
>
    decreases k,
{
    if k <= 0 {
        Ok(None)
    } else {
        match trip_below(node, axes, start, k - 1) {
            Err(reason) => Err(reason),
            Ok(trip) => trip_after(
                node.inputs@[start + k - 1].info,
                start + k - 1,
                axes[k - 1],
                trip,
            ),
        }
    }
}

pub proof fn lemma_trip_fails(node: NodeView, axes: Seq<i64>, start: int, k: int, n: int)
    requires
        0 <= k <= n,
        trip_below(node, axes, start, k) is Err,
    ensures
        trip_below(node, axes, start, n) == trip_below(node, axes, start, k),
    decreases n,
{
    if k < n {
        lemma_trip_fails(node, axes, start, k, n - 1);
    }
}

/// The first refusal among the scan outputs from `k` on.
pub open spec fn output_axes_refusal(
    node: NodeView,
    axes: Seq<i64>,
    start: int,
    k: int,
) -> Option<Seq<char>>
    decreases axes.len() - k,
{
    if k < 0 || k >= axes.len() {
        None
    } else {
        let output = "scan output "@ + decimal((start + k) as nat);
        match node.outputs@[start + k].info {
            None => Some(output + " lacks tensor type/shape info"@),
            Some(info) => if axis_position(axes[k] as int, info.shape@.len()) is None {
                Some(
                    output + " axis "@ + signed_decimal(axes[k] as int)
                        + " is invalid for rank "@ + decimal(info.shape@.len()),
                )
            } else {
                output_axes_refusal(node, axes, start, k + 1)
            },
        }
    }
}

/// Why the body of a `Scan` is refused.
pub open spec fn scan_body_refusal(node: NodeView) -> Option<Seq<char>> {
    let inputs = node.inputs@.len();
    let states = (inputs - node.num_scan_inputs) as nat;
    if node.subgraphs@.len() != 1 || node.subgraphs@[0].attribute@ != "body"@ {
        Some("requires exactly one body subgraph"@)
    } else {
        let body = node.subgraphs@[0];
        let outputs = body.output_names@.len();
        if body.input_names@.len() != inputs {
            Some(
                "body has "@ + decimal(body.input_names@.len()) + " inputs, expected "@ + decimal(
                    inputs,
                ) + " carried-state plus scan inputs"@,
            )
        } else if outputs < states {
            Some(
                "body has "@ + decimal(outputs) + " outputs but requires at least "@ + decimal(
                    states,
                ) + " carried-state outputs"@,
            )
        } else if node.outputs@.len() != outputs {
            Some(
                "Scan has "@ + decimal(node.outputs@.len()) + " outputs but body has "@ + decimal(
                    outputs,
                ),
            )
        } else if !body_fits(body) {
            Some(body_refusal(body))
        } else {
            None
        }
    }
}

/// Why the outputs of a `Scan` are refused.
pub open spec fn scan_outputs_refusal(node: NodeView) -> Option<Seq<char>> {
    let states = (node.inputs@.len() - node.num_scan_inputs) as nat;
    let count = (node.outputs@.len() - states) as nat;
    match attr_values(node.scan_output_axes, "scan_output_axes"@, count) {
        Err(reason) => Some(reason),
        Ok(axes) => match attr_values(
            node.scan_output_directions,
            "scan_output_directions"@,
            count,
        ) {
            Err(reason) => Some(reason),
            Ok(directions) => if !directions_valid(directions) {
                Some("scan_output_directions values must be 0 or 1"@)
            } else if node.scan_output_axes is Some {
                output_axes_refusal(node, axes, states as int, 0)
            } else {
                None
            },
        },
    }
}

/// Why a `Scan` is refused.
pub open spec fn scan_refusal(node: NodeView) -> Option<Seq<char>> {
    let inputs = node.inputs@.len();
    let scans = node.num_scan_inputs;
    if boundary_refusal(node, "Scan"@) is Some {
        boundary_refusal(node, "Scan"@)
    } else if scans <= 0 || inputs < scans {
        Some(
            "num_scan_inputs must be positive and no greater than the "@ + decimal(inputs)
                + " inputs, got "@ + signed_decimal(scans as int),
        )
    } else {
        match attr_values(node.scan_input_axes, "scan_input_axes"@, scans as nat) {
            Err(reason) => Some(reason),
            Ok(axes) => match attr_values(
                node.scan_input_directions,
                "scan_input_directions"@,
                scans as nat,
            ) {
                Err(reason) => Some(reason),
                Ok(directions) => if !directions_valid(directions) {
                    Some("scan_input_directions values must be 0 or 1"@)
                } else {
                    match trip_below(node, axes, inputs - scans, scans as int) {
                        Err(reason) => Some(reason),
                        Ok(_) => first_refusal(scan_body_refusal(node), scan_outputs_refusal(node)),
                    }
                },
            },
        }
    }
}

fn check_trip(info: &Option<TensorInfo>, i: usize, axis: i64, trip: Option<i64>) -> (result: Result<
    Option<i64>,
    String,
>)
    ensures
        match result {
            Ok(next) => trip_after(*info, i as int, axis, trip) == Ok::<Option<i64>, Seq<char>>(
                next,
            ),
            Err(reason) => trip_after(*info, i as int, axis, trip) == Err::<
                Option<i64>,
                Seq<char>,
            >(reason@),
        },
{
    let mut text: String = join2("scan input ", decimal_text(i as u64).as_str());
    match info {
        None => {
            text.append(" lacks tensor type/shape info");
            Err(text)
        },
        Some(info) => match normalized_axis(axis, info.shape.len()) {
            None => {
                text.append(" axis ");
                text.append(signed_text(axis).as_str());
                text.append(" is invalid for rank ");
                text.append(decimal_text(info.shape.len() as u64).as_str());
                Err(text)
            },
            Some(position) => {
                let length: i64 = info.shape[position];
                if length != -1 && length < 1 {
                    text.append(" axis ");
                    text.append(signed_text(axis).as_str());
                    text.append(" must be non-empty or dynamic, got shape ");
                    text.append(list_text(&info.shape).as_str());
                    Err(text)
                } else if length == -1 {
                    Ok(trip)
                } else {
                    match trip {
                        None => Ok(Some(length)),
                        Some(expected) => if length == expected {
                            Ok(trip)
                        } else {
                            let mut unequal: String = join3(
                                "scan inputs must have equal known sequence lengths, got ",
                                signed_text(expected).as_str(),
                                " and ",
                            );
                            unequal.append(signed_text(length).as_str());
                            Err(unequal)
                        },
                    }
                }
            },
        },
    }
}

fn check_scan_body(node: &NodeView, states: usize) -> (result: Result<(), String>)
    requires
        0 < node.num_scan_inputs <= node.inputs@.len(),
        states == node.inputs@.len() - node.num_scan_inputs,
    ensures
        verdict(result) == scan_body_refusal(*node),
{
    let inputs: usize = node.inputs.len();
    if node.subgraphs.len() != 1 || !same_text(node.subgraphs[0].attribute.as_str(), "body") {
        return Err("requires exactly one body subgraph".to_owned());
    }
    let body: &GraphView = &node.subgraphs[0];
    let outputs: usize = body.output_names.len();
    if body.input_names.len() != inputs {
        let mut text: String = join3(
            "body has ",
            decimal_text(body.input_names.len() as u64).as_str(),
            " inputs, expected ",
        );
        text.append(decimal_text(inputs as u64).as_str());
        text.append(" carried-state plus scan inputs");
        return Err(text);
    }
    if outputs < states {
        let mut text: String = join3(
            "body has ",
            decimal_text(outputs as u64).as_str(),
            " outputs but requires at least ",
        );
        text.append(decimal_text(states as u64).as_str());
        text.append(" carried-state outputs");
        return Err(text);
    }
    if node.outputs.len() != outputs {
        let mut text: String = join3(
            "Scan has ",
            decimal_text(node.outputs.len() as u64).as_str(),
            " outputs but body has ",
        );
        text.append(decimal_text(outputs as u64).as_str());
        return Err(text);
    }
    if !body_claimable(body) {
        return Err(body_rejection(body));
    }
    Ok(())
}

fn check_output_axes(node: &NodeView, axes: &Vec<i64>, start: usize) -> (result: Result<(), String>)
    requires
        start + axes@.len() <= node.outputs@.len(),
    ensures
        verdict(result) == output_axes_refusal(*node, axes@, start as int, 0),
{
    let total: usize = node.outputs.len();
    let mut k: usize = 0;
    while k < axes.len()
        invariant
            k <= axes@.len(),
            total == node.outputs@.len(),
            start + axes@.len() <= total,
            output_axes_refusal(*node, axes@, start as int, 0) == output_axes_refusal(
                *node,
                axes@,
                start as int,
                k as int,
            ),
        decreases axes@.len() - k,
    {
        let index: usize = start + k;
        let mut text: String = join2("scan output ", decimal_text(index as u64).as_str());
        match &node.outputs[index].info {
            None => {
                text.append(" lacks tensor type/shape info");
                return Err(text);
            },
            Some(info) => {
                if normalized_axis(axes[k], info.shape.len()).is_none() {
                    text.append(" axis ");
                    text.append(signed_text(axes[k]).as_str());
                    text.append(" is invalid for rank ");
                    text.append(decimal_text(info.shape.len() as u64).as_str());
                    return Err(text);
                }
            },
        }
        k = k + 1;
    }
    Ok(())
}

fn check_scan_outputs(node: &NodeView, states: usize) -> (result: Result<(), String>)
    requires
        0 < node.num_scan_inputs <= node.inputs@.len(),
        states == node.inputs@.len() - node.num_scan_inputs,
        states <= node.outputs@.len(),
    ensures
        verdict(result) == scan_outputs_refusal(*node),
{
    let count: usize = node.outputs.len() - states;
    let axes: Vec<i64> = match read_attr(&node.scan_output_axes, "scan_output_axes", count) {
        Err(reason) => {
            return Err(reason);
        },
        Ok(values) => values,
    };
    match read_attr(&node.scan_output_directions, "scan_output_directions", count) {
        Err(reason) => {
            return Err(reason);
        },
        Ok(directions) => {
            if !check_directions(&directions) {
                return Err("scan_output_directions values must be 0 or 1".to_owned());
            }
        },
    }
    if node.scan_output_axes.is_some() {
        return check_output_axes(node, &axes, states);
    }
    Ok(())
}

/// Whether a `Scan` is claimed.
pub fn scan_claim(node: &NodeView) -> (result: Result<(), String>)
    ensures
        verdict(result) == scan_refusal(*node),
{
    let inputs: usize = node.inputs.len();
    match require_tensor_control_flow_boundary(node, "Scan") {
        Err(reason) => {
            return Err(reason);
        },
        Ok(_) => {},
    }
    if node.num_scan_inputs <= 0 || (inputs as u64) < node.num_scan_inputs as u64 {
        let mut text: String = join3(
            "num_scan_inputs must be positive and no greater than the ",
            decimal_text(inputs as u64).as_str(),
            " inputs, got ",
        );
        text.append(signed_text(node.num_scan_inputs).as_str());
        return Err(text);
    }
    let scans: usize = node.num_scan_inputs as usize;
    let states: usize = inputs - scans;
    let axes: Vec<i64> = match read_attr(&node.scan_input_axes, "scan_input_axes", scans) {
        Err(reason) => {
            return Err(reason);
        },
        Ok(values) => values,
    };
    match read_attr(&node.scan_input_directions, "scan_input_directions", scans) {
        Err(reason) => {
            return Err(reason);
        },
        Ok(directions) => {
            if !check_directions(&directions) {
                return Err("scan_input_directions values must be 0 or 1".to_owned());
            }
        },
    }
    let mut trip: Option<i64> = None;
    let mut k: usize = 0;
    while k < scans
        invariant
            k <= scans,
            scans == node.num_scan_inputs,
            0 < node.num_scan_inputs <= node.inputs@.len(),
            inputs == node.inputs@.len(),
            states == inputs - scans,
            axes@.len() == scans,
            boundary_refusal(*node, "Scan"@) is None,
            attr_values(node.scan_input_axes, "scan_input_axes"@, scans as nat) == Ok::<
                Seq<i64>,
                Seq<char>,
            >(axes@),
            attr_values(
                node.scan_input_directions,
                "scan_input_directions"@,
                scans as nat,
            ) matches Ok(directions) && directions_valid(directions),
            trip_below(*node, axes@, states as int, k as int) == Ok::<Option<i64>, Seq<char>>(trip),
        decreases scans - k,
    {
        match check_trip(&node.inputs[states + k].info, states + k, axes[k], trip) {
            Err(reason) => {
                proof {
                    lemma_trip_fails(*node, axes@, states as int, k + 1, scans as int);
                }
                return Err(reason);
            },
            Ok(next) => {
                trip = next;
            },
        }
        k = k + 1;
    }
    match check_scan_body(node, states) {
        Err(reason) => {
            return Err(reason);
        },
        Ok(_) => {},
    }
    check_scan_outputs(node, states)
}

/// The one text with which loops are refused.
pub open spec fn loop_unsupported() -> Seq<char> {
    "Loop: only static carried-state loops (constant trip-count + passthrough cond, no scan outputs) are unrolled; scan outputs / dynamic control stay on CPU"@
}

/// The loop counts up to a constant, keeps its condition, and carries its state without collecting
/// anything.
pub open spec fn loop_fits(node: NodeView) -> bool {
    let inputs = node.inputs@.len();
    &&& inputs >= 2
    &&& input_is(node, 0, INT64)
    &&& node.inputs@[0].constant
    &&& input_is(node, 1, BOOL)
    &&& node.subgraphs@.len() == 1
    &&& node.subgraphs@[0].attribute@ == "body"@
    &&& node.subgraphs@[0].input_names@.len() == inputs
    &&& node.subgraphs@[0].output_names@.len() == inputs - 1
    &&& node.outputs@.len() == inputs - 2
    &&& condition_passes(node.subgraphs@[0])
    &&& body_fits(node.subgraphs@[0])
}

/// Why a `Loop` is refused.
pub open spec fn loop_refusal(node: NodeView) -> Option<Seq<char>> {
    first_refusal(
        boundary_refusal(node, "Loop"@),
        if loop_fits(node) {
            None
        } else {
            Some(loop_unsupported())
        },
    )
}

/// Whether a `Loop` is claimed.
pub fn loop_claim(node: &NodeView) -> (result: Result<(), String>)
    ensures
        verdict(result) == loop_refusal(*node),
{
    match require_tensor_control_flow_boundary(node, "Loop") {
        Err(reason) => {
            return Err(reason);
        },
        Ok(_) => {},
    }
    let inputs: usize = node.inputs.len();
    let fits: bool = inputs >= 2 && node.input_has(0, INT64) && node.inputs[0].constant
        && node.input_has(1, BOOL) && node.subgraphs.len() == 1 && same_text(node.subgraphs[0].attribute.as_str(), "body")
        && node.subgraphs[0].input_names.len() == inputs && node.subgraphs[0].output_names.len()
        == inputs - 1 && node.outputs.len() == inputs - 2 && loop_cond_is_passthrough(
        &node.subgraphs[0],
    ) && body_claimable(&node.subgraphs[0]);
    if fits {
        Ok(())
    } else {
        Err(
            "Loop: only static carried-state loops (constant trip-count + passthrough cond, no scan outputs) are unrolled; scan outputs / dynamic control stay on CPU".to_owned(),
        )
    }
}

/// A body that works on 64-bit floating-point tensors, or holds a node that the registry refuses,
/// keeps its parent from being claimed.
pub proof fn law_unfit_body_refused(node: NodeView, i: int)
    requires
        0 <= i < node.subgraphs@.len(),
        !body_fits(node.subgraphs@[i]),
    ensures
        if_refusal(node) is Some,
        scan_refusal(node) is Some,
        loop_refusal(node) is Some,
{
    if node.subgraphs@.len() == 2 {
        lemma_branches(node.subgraphs@, node.outputs@.len(), 0, i);
    }
}

proof fn lemma_branches(bodies: Seq<GraphView>, outputs: nat, k: int, i: int)
    requires
        0 <= k <= i < bodies.len(),
        branch_refusal(bodies[i], outputs) is Some,
    ensures
        branches_refusal(bodies, outputs, k) is Some,
    decreases i - k,
{
    if k < i {
        lemma_branches(bodies, outputs, k + 1, i);
    }
}

/// A slot that carries anything but a tensor keeps a control-flow node from being claimed.
pub proof fn law_boundary_refused(node: NodeView)
    ensures
        boundary_refusal(node, "If"@) is Some ==> if_refusal(node) is Some,
        boundary_refusal(node, "Scan"@) is Some ==> scan_refusal(node) is Some,
        boundary_refusal(node, "Loop"@) is Some ==> loop_refusal(node) is Some,
{
}

/// The entry of an operator that is registered for every opset of the standard domain.
pub open spec fn standard_entry(
    op_type: Seq<char>,
    operator: Operator,
    safety: CompileShapeSafety,
    reason: Seq<char>,
) -> EntryModel {
    EntryModel {
        domain: Seq::empty(),
        op_type,
        min_opset: None,
        max_opset: None,
        operator,
        safety,
        reason,
    }
}

fn standard_registration(op_type: &str, operator: Operator) -> (registration: OpRegistration)
    ensures
        registration.domain@ == Seq::<char>::empty(),
        registration.op_type@ == op_type@,
        registration.min_opset is None,
        registration.max_opset is None,
        registration.operator == operator,
{
    OpRegistration {
        domain: String::new(),
        op_type: op_type.to_owned(),
        min_opset: None,
        max_opset: None,
        operator,
    }
}

/// Registers the control-flow operators.
pub fn register(registry: &mut OpRegistry)
    ensures
        final(registry)@ == old(registry)@ + seq![
            standard_entry("If"@, Operator::If, CompileShapeSafety::Shapeless, Seq::empty()),
            standard_entry(
                "Scan"@,
                Operator::Scan,
                CompileShapeSafety::ShapeKeyed,
                "emits MLX Slice and, for fused selective scans, CustomKernel; neither implements Primitive::output_shapes in MLX 0.32.2"@,
            ),
            standard_entry("Loop"@, Operator::Loop, CompileShapeSafety::Shapeless, Seq::empty()),
        ],
{
    registry.register_shapeless(standard_registration("If", Operator::If));
    registry.register_shape_keyed(
        standard_registration("Scan", Operator::Scan),
        "emits MLX Slice and, for fused selective scans, CustomKernel; neither implements Primitive::output_shapes in MLX 0.32.2",
    );
    registry.register_shapeless(standard_registration("Loop", Operator::Loop));
}

} // verus!
