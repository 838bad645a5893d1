//! Which control-flow nodes are claimed, in terms of the node's own fields.

use vstd::prelude::*;

use crate::ops::controlflow::{
    attr_values, branches_refusal, directions_valid, has_body, if_refusal, loop_refusal,
    output_axes_refusal, scan_refusal, trip_after, trip_below,
};
use crate::ops::views::{
    body_refusal, boundary_refusal, crossing_refusal, inputs_refusal, outputs_refusal, verdict,
    GraphView, InputView, NodeView, OutputView, PortKind,
};
use crate::text::decimal;

verus! {

proof fn lemma_inputs_cross(inputs: Seq<InputView>, op: Seq<char>, k: int)
    requires
        0 <= k <= inputs.len(),
    ensures
        inputs_refusal(inputs, op, k) is None <==> forall|i: int|
            k <= i < inputs.len() && (#[trigger] inputs[i]).present ==> inputs[i].kind is Some
                && inputs[i].kind->0 is Tensor,
    decreases inputs.len() - k,
{
    if k < inputs.len() {
        lemma_inputs_cross(inputs, op, k + 1);
        let first = inputs[k];
    }
}

proof fn lemma_outputs_cross(outputs: Seq<OutputView>, op: Seq<char>, k: int)
    requires
        0 <= k <= outputs.len(),
    ensures
        outputs_refusal(outputs, op, k) is None <==> forall|i: int|
            k <= i < outputs.len() ==> (#[trigger] outputs[i]).kind is Some
                && outputs[i].kind->0 is Tensor,
    decreases outputs.len() - k,
{
    if k < outputs.len() {
        lemma_outputs_cross(outputs, op, k + 1);
        let first = outputs[k];
    }
}

/// A node crosses the boundary of a fused subgraph exactly if every input that is there and every
/// output is a tensor.
pub proof fn law_only_tensors_cross(node: NodeView, op: Seq<char>)
    ensures
        boundary_refusal(node, op) is None <==> {
            &&& forall|i: int|
                0 <= i < node.inputs@.len() && (#[trigger] node.inputs@[i]).present
                    ==> node.inputs@[i].kind is Some && node.inputs@[i].kind->0 is Tensor
            &&& forall|i: int|
                0 <= i < node.outputs@.len() ==> (#[trigger] node.outputs@[i]).kind is Some
                    && node.outputs@[i].kind->0 is Tensor
        },
{
    lemma_inputs_cross(node.inputs@, op, 0);
    lemma_outputs_cross(node.outputs@, op, 0);
}

/// Nothing but tensors is found among the first slots.
pub open spec fn inputs_are_tensors(inputs: Seq<InputView>, count: int) -> bool {
    forall|i: int|
        0 <= i < count && (#[trigger] inputs[i]).present ==> inputs[i].kind == Some(
            PortKind::Tensor,
        )
}

/// Nothing but tensors is found among the first slots.
pub open spec fn outputs_are_tensors(outputs: Seq<OutputView>, count: int) -> bool {
    forall|i: int| 0 <= i < count ==> (#[trigger] outputs[i]).kind == Some(PortKind::Tensor)
}

proof fn lemma_first_input(inputs: Seq<InputView>, op: Seq<char>, at: int, k: int)
    requires
        0 <= k <= at < inputs.len(),
        inputs_are_tensors(inputs, at),
        inputs[at].present,
        inputs[at].kind != Some(PortKind::Tensor),
    ensures
        inputs_refusal(inputs, op, k) == crossing_refusal(op, "input"@, at, inputs[at].kind),
    decreases at - k,
{
    if k < at {
        lemma_first_input(inputs, op, at, k + 1);
        assert(inputs[k].present ==> inputs[k].kind == Some(PortKind::Tensor));
    }
}

proof fn lemma_first_output(outputs: Seq<OutputView>, op: Seq<char>, at: int, k: int)
    requires
        0 <= k <= at < outputs.len(),
        outputs_are_tensors(outputs, at),
        outputs[at].kind != Some(PortKind::Tensor),
    ensures
        outputs_refusal(outputs, op, k) == crossing_refusal(op, "output"@, at, outputs[at].kind),
    decreases at - k,
{
    if k < at {
        lemma_first_output(outputs, op, at, k + 1);
        assert(outputs[k].kind == Some(PortKind::Tensor));
    }
}

/// The refusal at the boundary names the first input that is there and is no tensor, or, if there
/// is none, the first such output: its position, and what it is if that is known.
pub proof fn law_first_offender_named(node: NodeView, op: Seq<char>, at: int)
    ensures
        0 <= at < node.inputs@.len() && inputs_are_tensors(node.inputs@, at)
            && node.inputs@[at].present ==> match node.inputs@[at].kind {
            Some(PortKind::Tensor) => true,
            Some(PortKind::Other(what)) => boundary_refusal(node, op) == Some(
                op + ": "@ + what@ + " "@ + "input"@ + "["@ + decimal(at as nat)
                    + "] cannot cross the ORT 1.29 plugin EP tensor boundary"@,
            ),
            None => boundary_refusal(node, op) == Some(
                op + ": "@ + "input"@ + "["@ + decimal(at as nat)
                    + "] type information is unavailable"@,
            ),
        },
        0 <= at < node.outputs@.len() && inputs_are_tensors(
            node.inputs@,
            node.inputs@.len() as int,
        ) && outputs_are_tensors(node.outputs@, at) ==> match node.outputs@[at].kind {
            Some(PortKind::Tensor) => true,
            Some(PortKind::Other(what)) => boundary_refusal(node, op) == Some(
                op + ": "@ + what@ + " "@ + "output"@ + "["@ + decimal(at as nat)
                    + "] cannot cross the ORT 1.29 plugin EP tensor boundary"@,
            ),
            None => boundary_refusal(node, op) == Some(
                op + ": "@ + "output"@ + "["@ + decimal(at as nat)
                    + "] type information is unavailable"@,
            ),
        },
{
    let inputs = node.inputs@;
    let outputs = node.outputs@;
    if 0 <= at < inputs.len() && inputs_are_tensors(inputs, at) && inputs[at].present
        && inputs[at].kind != Some(PortKind::Tensor) {
        lemma_first_input(inputs, op, at, 0);
    }
    if 0 <= at < outputs.len() && inputs_are_tensors(inputs, inputs.len() as int)
        && outputs_are_tensors(outputs, at) && outputs[at].kind != Some(PortKind::Tensor) {
        lemma_inputs_cross(inputs, op, 0);
        assert forall|i: int| 0 <= i < inputs.len() && (#[trigger] inputs[i]).present implies
            inputs[i].kind is Some && inputs[i].kind->0 is Tensor by {}
        lemma_first_output(outputs, op, at, 0);
    }
}

proof fn lemma_branches(bodies: Seq<GraphView>, outputs: nat, k: int)
    requires
        0 <= k <= bodies.len(),
    ensures
        branches_refusal(bodies, outputs, k) is None <==> forall|i: int|
            k <= i < bodies.len() ==> {
                &&& (#[trigger] bodies[i]).attribute@ == "then_branch"@ || bodies[i].attribute@
                    == "else_branch"@
                &&& bodies[i].input_names@.len() == 0
                &&& bodies[i].output_names@.len() == outputs
                &&& !bodies[i].uses_float64
                &&& bodies[i].all_claimable
            },
    decreases bodies.len() - k,
{
    if k < bodies.len() {
        lemma_branches(bodies, outputs, k + 1);
        let first = bodies[k];
    }
}

/// An `If` is claimed exactly if it has one input and some outputs, all of them tensors; the input
/// is a boolean that can be read before anything runs; and its two bodies are one branch for each
/// outcome, without formal inputs, with the outputs of the node, and with nothing that cannot be
/// translated or works on 64-bit floating-point tensors.
pub proof fn law_if_claimed(node: NodeView)
    ensures
        if_refusal(node) is None <==> {
            &&& node.inputs@.len() == 1
            &&& node.outputs@.len() > 0
            &&& node.inputs@[0].present ==> node.inputs@[0].kind is Some
                && node.inputs@[0].kind->0 is Tensor
            &&& forall|i: int|
                0 <= i < node.outputs@.len() ==> (#[trigger] node.outputs@[i]).kind is Some
                    && node.outputs@[i].kind->0 is Tensor
            &&& node.inputs@[0].info is Some
            &&& node.inputs@[0].info->0.dtype == 9
            &&& node.inputs@[0].host_readable
            &&& node.subgraphs@.len() == 2
            &&& forall|i: int|
                0 <= i < 2 ==> {
                    &&& (#[trigger] node.subgraphs@[i]).input_names@.len() == 0
                    &&& node.subgraphs@[i].output_names@.len() == node.outputs@.len()
                    &&& !node.subgraphs@[i].uses_float64
                    &&& node.subgraphs@[i].all_claimable
                }
            &&& (node.subgraphs@[0].attribute@ == "then_branch"@
                && node.subgraphs@[1].attribute@ == "else_branch"@) || (
            node.subgraphs@[0].attribute@ == "else_branch"@ && node.subgraphs@[1].attribute@
                == "then_branch"@)
        },
{
    law_only_tensors_cross(node, "If"@);
    lemma_branches(node.subgraphs@, node.outputs@.len(), 0);
    reveal_strlit("then_branch");
    reveal_strlit("else_branch");
    assert("then_branch"@[0] != "else_branch"@[0]);
    let bodies = node.subgraphs@;
    if bodies.len() == 2 {
        let first = bodies[0];
        let second = bodies[1];
        assert(has_body(bodies, "then_branch"@) <==> first.attribute@ == "then_branch"@
            || second.attribute@ == "then_branch"@);
        assert(has_body(bodies, "else_branch"@) <==> first.attribute@ == "else_branch"@
            || second.attribute@ == "else_branch"@);
    }
}

/// A `Loop` is claimed exactly if all its slots carry tensors; its trip count is a constant 64-bit
/// integer and its condition a boolean; it has one body, which takes the counter, the condition and
/// the carried state, and puts out the condition and the carried state, which are all the outputs
/// of the node; the body hands the condition through, as the same value or by an `Identity`; and it
/// holds nothing that cannot be translated or works on 64-bit floating-point tensors.
pub proof fn law_loop_claimed(node: NodeView)
    ensures
        loop_refusal(node) is None <==> {
            &&& forall|i: int|
                0 <= i < node.inputs@.len() && (#[trigger] node.inputs@[i]).present
                    ==> node.inputs@[i].kind is Some && node.inputs@[i].kind->0 is Tensor
            &&& forall|i: int|
                0 <= i < node.outputs@.len() ==> (#[trigger] node.outputs@[i]).kind is Some
                    && node.outputs@[i].kind->0 is Tensor
            &&& node.inputs@.len() >= 2
            &&& node.inputs@[0].info is Some
            &&& node.inputs@[0].info->0.dtype == 7
            &&& node.inputs@[0].constant
            &&& node.inputs@[1].info is Some
            &&& node.inputs@[1].info->0.dtype == 9
            &&& node.outputs@.len() == node.inputs@.len() - 2
            &&& node.subgraphs@.len() == 1
            &&& node.subgraphs@[0].attribute@ == "body"@
            &&& node.subgraphs@[0].input_names@.len() == node.inputs@.len()
            &&& node.subgraphs@[0].output_names@.len() == node.inputs@.len() - 1
            &&& !node.subgraphs@[0].uses_float64
            &&& node.subgraphs@[0].all_claimable
            &&& node.subgraphs@[0].input_names@[1]@.len() > 0
            &&& node.subgraphs@[0].output_names@[0]@.len() > 0
            &&& node.subgraphs@[0].input_names@[1]@ == node.subgraphs@[0].output_names@[0]@
                || exists|i: int|
                0 <= i < node.subgraphs@[0].nodes@.len() && {
                    let step = #[trigger] node.subgraphs@[0].nodes@[i];
                    &&& step.op_type@ == "Identity"@
                    &&& step.input_names@.len() == 1
                    &&& step.input_names@[0]@ == node.subgraphs@[0].input_names@[1]@
                    &&& step.output_names@.len() == 1
                    &&& step.output_names@[0]@ == node.subgraphs@[0].output_names@[0]@
                }
        },
{
    law_only_tensors_cross(node, "Loop"@);
    if node.subgraphs@.len() == 1 && node.subgraphs@[0].input_names@.len() >= 2
        && node.subgraphs@[0].output_names@.len() >= 1 {
        let body = node.subgraphs@[0];
        let given = body.input_names@[1]@;
        let put_out = body.output_names@[0]@;
        assert forall|i: int| 0 <= i < body.nodes@.len() implies (crate::ops::views::copies(
            #[trigger] body.nodes@[i],
            given,
            put_out,
        ) <==> {
            let step = body.nodes@[i];
            &&& step.op_type@ == "Identity"@
            &&& step.input_names@.len() == 1
            &&& step.input_names@[0]@ == given
            &&& step.output_names@.len() == 1
            &&& step.output_names@[0]@ == put_out
        }) by {
            let step = body.nodes@[i];
            lemma_one_text(step.input_names@, given);
            lemma_one_text(step.output_names@, put_out);
        }
        if exists|i: int|
            0 <= i < body.nodes@.len() && crate::ops::views::copies(
                #[trigger] body.nodes@[i],
                given,
                put_out,
            ) {
            let i = choose|i: int|
                0 <= i < body.nodes@.len() && crate::ops::views::copies(
                    #[trigger] body.nodes@[i],
                    given,
                    put_out,
                );
            assert(body.nodes@[i].op_type@ == "Identity"@);
        }
        if exists|i: int|
            0 <= i < body.nodes@.len() && {
                let step = #[trigger] body.nodes@[i];
                &&& step.op_type@ == "Identity"@
                &&& step.input_names@.len() == 1
                &&& step.input_names@[0]@ == given
                &&& step.output_names@.len() == 1
                &&& step.output_names@[0]@ == put_out
            } {
            let i = choose|i: int|
                0 <= i < body.nodes@.len() && {
                    let step = #[trigger] body.nodes@[i];
                    &&& step.op_type@ == "Identity"@
                    &&& step.input_names@.len() == 1
                    &&& step.input_names@[0]@ == given
                    &&& step.output_names@.len() == 1
                    &&& step.output_names@[0]@ == put_out
                };
            assert(crate::ops::views::copies(body.nodes@[i], given, put_out));
        }
    }
}

proof fn lemma_one_text(list: Seq<String>, text: Seq<char>)
    ensures
        crate::rejection::texts(list) == seq![text] <==> list.len() == 1 && list[0]@ == text,
{
    let all = crate::rejection::texts(list);
    if all == seq![text] {
        assert(all.len() == 1);
        assert(all[0] == text);
        assert(all[0] == list[0]@);
    }
    if list.len() == 1 && list[0]@ == text {
        assert(all =~= seq![text]);
    }
}

/// The axis that an optional list names for place `i`: zero without a list.
pub open spec fn named_axis(axes: Option<Vec<i64>>, i: int) -> int {
    match axes {
        Some(list) => list@[i] as int,
        None => 0,
    }
}

/// The place that an axis counts to: from the end where it is negative.
pub open spec fn counted_axis(axis: int, rank: nat) -> int {
    if axis < 0 {
        axis + rank
    } else {
        axis
    }
}

/// How long scan input `i` is along its axis, if it has that axis; minus one is unknown.
pub open spec fn scan_length(node: NodeView, i: int) -> Option<i64> {
    let input = node.inputs@[node.inputs@.len() - node.num_scan_inputs + i];
    match input.info {
        None => None,
        Some(info) => {
            let place = counted_axis(named_axis(node.scan_input_axes, i), info.shape@.len());
            if 0 <= place < info.shape@.len() {
                Some(info.shape@[place])
            } else {
                None
            }
        },
    }
}

pub proof fn lemma_trip_below(node: NodeView, axes: Seq<i64>, k: int)
    requires
        0 < node.num_scan_inputs <= node.inputs@.len(),
        0 <= k <= node.num_scan_inputs,
        axes.len() == node.num_scan_inputs,
        forall|i: int|
            0 <= i < axes.len() ==> #[trigger] axes[i] == named_axis(node.scan_input_axes, i),
    ensures
        ({
            let trip = trip_below(node, axes, node.inputs@.len() - node.num_scan_inputs, k);
            &&& trip is Ok <==> {
                &&& forall|i: int|
                    0 <= i < k ==> (#[trigger] scan_length(node, i)) is Some && (scan_length(
                        node,
                        i,
                    )->0 == -1 || scan_length(node, i)->0 >= 1)
                &&& forall|i: int, j: int|
                    0 <= i < k && 0 <= j < k && #[trigger] scan_length(node, i)
                        != #[trigger] scan_length(node, j) ==> scan_length(node, i) == Some(-1i64)
                        || scan_length(node, j) == Some(-1i64)
            }
            &&& trip is Ok ==> forall|i: int|
                0 <= i < k && #[trigger] scan_length(node, i) != Some(-1i64) ==> trip->Ok_0
                    == scan_length(node, i)
            &&& trip is Ok && trip->Ok_0 is Some ==> trip->Ok_0->0 >= 1 && exists|i: int|
                0 <= i < k && #[trigger] scan_length(node, i) == trip->Ok_0
        }),
    decreases k,
{
    if k > 0 {
        let start = node.inputs@.len() - node.num_scan_inputs;
        lemma_trip_below(node, axes, k - 1);
        let before = trip_below(node, axes, start, k - 1);
        let trip = trip_below(node, axes, start, k);
        let input = node.inputs@[start + k - 1];
        assert(axes[k - 1] == named_axis(node.scan_input_axes, k - 1));
        let length = scan_length(node, k - 1);
        assert(trip == (match before {
            Err(reason) => Err::<Option<i64>, Seq<char>>(reason),
            Ok(known) => trip_after(input.info, start + k - 1, axes[k - 1], known),
        }));
        if before is Ok && length is Some && length->0 >= 1 && before->Ok_0 is Some
            && before->Ok_0 != length {
            let i = choose|i: int|
                0 <= i < k - 1 && #[trigger] scan_length(node, i) == before->Ok_0;
            assert(scan_length(node, i) != scan_length(node, k - 1));
        }
        if before is Ok && before->Ok_0 is Some && trip is Ok {
            let i = choose|i: int|
                0 <= i < k - 1 && #[trigger] scan_length(node, i) == before->Ok_0;
            assert(scan_length(node, i) == trip->Ok_0);
        }
    }
}

/// An output that is stacked along an axis has that axis.
pub open spec fn output_axis_fits(node: NodeView, i: int, axis: i64) -> bool {
    let output = node.outputs@[i];
    &&& output.info is Some
    &&& 0 <= counted_axis(axis as int, output.info->0.shape@.len()) < output.info->0.shape@.len()
}

proof fn lemma_output_axes(node: NodeView, axes: Seq<i64>, start: int, k: int)
    requires
        0 <= k <= axes.len(),
        0 <= start,
        start + axes.len() <= node.outputs@.len(),
    ensures
        output_axes_refusal(node, axes, start, k) is None <==> forall|i: int|
            k <= i < axes.len() ==> output_axis_fits(node, start + i, #[trigger] axes[i]),
    decreases axes.len() - k,
{
    if k < axes.len() {
        lemma_output_axes(node, axes, start, k + 1);
        let first = axes[k];
        assert(output_axes_refusal(node, axes, start, k) is None <==> output_axis_fits(
            node,
            start + k,
            first,
        ) && output_axes_refusal(node, axes, start, k + 1) is None);
    }
}

/// A `Scan` is claimed exactly if all its slots carry tensors; some of its inputs, but no more than
/// there are, are scanned; axes and directions, where they are given, are given for every scan
/// input and output, directions as zero or one; every scan input has its axis, along which it is
/// of unknown length or not empty, and all known lengths are equal; every output axis that is given
/// lies in its output; and its one body takes all inputs, puts out all outputs, the carried state
/// among them, and holds nothing that cannot be translated or works on 64-bit floating-point
/// tensors.
pub proof fn law_scan_claimed(node: NodeView)
    ensures
        scan_refusal(node) is None <==> {
            let scans = node.num_scan_inputs as int;
            let states = node.inputs@.len() - scans;
            let count = node.outputs@.len() - states;
            &&& forall|i: int|
                0 <= i < node.inputs@.len() && (#[trigger] node.inputs@[i]).present
                    ==> node.inputs@[i].kind is Some && node.inputs@[i].kind->0 is Tensor
            &&& forall|i: int|
                0 <= i < node.outputs@.len() ==> (#[trigger] node.outputs@[i]).kind is Some
                    && node.outputs@[i].kind->0 is Tensor
            &&& 0 < scans <= node.inputs@.len()
            &&& node.scan_input_axes is Some ==> node.scan_input_axes->0@.len() == scans
            &&& node.scan_input_directions is Some ==> {
                &&& node.scan_input_directions->0@.len() == scans
                &&& forall|i: int|
                    0 <= i < scans ==> #[trigger] node.scan_input_directions->0@[i] == 0
                        || node.scan_input_directions->0@[i] == 1
            }
            &&& forall|i: int|
                0 <= i < scans ==> (#[trigger] scan_length(node, i)) is Some && (scan_length(
                    node,
                    i,
                )->0 == -1 || scan_length(node, i)->0 >= 1)
            &&& forall|i: int, j: int|
                0 <= i < scans && 0 <= j < scans && #[trigger] scan_length(node, i)
                    != #[trigger] scan_length(node, j) ==> scan_length(node, i) == Some(-1i64)
                    || scan_length(node, j) == Some(-1i64)
            &&& node.subgraphs@.len() == 1
            &&& node.subgraphs@[0].attribute@ == "body"@
            &&& node.subgraphs@[0].input_names@.len() == node.inputs@.len()
            &&& node.subgraphs@[0].output_names@.len() == node.outputs@.len()
            &&& node.outputs@.len() >= states
            &&& !node.subgraphs@[0].uses_float64
            &&& node.subgraphs@[0].all_claimable
            &&& node.scan_output_directions is Some ==> {
                &&& node.scan_output_directions->0@.len() == count
                &&& forall|i: int|
                    0 <= i < count ==> #[trigger] node.scan_output_directions->0@[i] == 0
                        || node.scan_output_directions->0@[i] == 1
            }
            &&& node.scan_output_axes is Some ==> {
                &&& node.scan_output_axes->0@.len() == count
                &&& forall|i: int|
                    0 <= i < count ==> output_axis_fits(
                        node,
                        states + i,
                        #[trigger] node.scan_output_axes->0@[i],
                    )
            }
        },
{
    let scans = node.num_scan_inputs as int;
    let states = node.inputs@.len() - scans;
    let count = node.outputs@.len() - states;
    law_only_tensors_cross(node, "Scan"@);
    if 0 < scans <= node.inputs@.len() {
        let axes = attr_values(node.scan_input_axes, "scan_input_axes"@, scans as nat);
        let directions = attr_values(
            node.scan_input_directions,
            "scan_input_directions"@,
            scans as nat,
        );
        if axes is Ok {
            assert forall|i: int| 0 <= i < axes->Ok_0.len() implies #[trigger] axes->Ok_0[i]
                == named_axis(node.scan_input_axes, i) by {}
            lemma_trip_below(node, axes->Ok_0, scans);
        }
        if node.scan_input_directions is None && directions is Ok {
            assert(directions_valid(directions->Ok_0));
        }
        if 0 <= count {
            let out_axes = attr_values(node.scan_output_axes, "scan_output_axes"@, count as nat);
            let out_directions = attr_values(
                node.scan_output_directions,
                "scan_output_directions"@,
                count as nat,
            );
            if node.scan_output_directions is None && out_directions is Ok {
                assert(directions_valid(out_directions->Ok_0));
            }
            if node.scan_output_axes is Some && out_axes is Ok {
                lemma_output_axes(node, out_axes->Ok_0, states, 0);
            }
        }
    }
}

/// A node is claimed exactly if the answer is no error; an error tells the reason.
pub proof fn law_verdicts(result: Result<(), String>)
    ensures
        verdict(result) is None <==> result is Ok,
        result matches Err(reason) ==> verdict(result) == Some(reason@),
{
}

/// The refusal of a body tells of 64-bit floating-point tensors first; else it names the first node
/// that cannot be translated, if that is known, and why.
pub proof fn law_body_refusals(body: GraphView)
    ensures
        body.uses_float64 ==> body_refusal(body)
            == "body carries float64, which MLX can only evaluate on a CPU stream — a control-flow body is translated inside the parent's (GPU) plan, so it is left to ORT CPU"@,
        !body.uses_float64 && body.first_unclaimable is None ==> body_refusal(body)
            == "body contains an unclaimable operation"@,
        !body.uses_float64 && body.first_unclaimable is Some ==> {
            let node = body.first_unclaimable->0;
            let opening = "body contains an unclaimable operation: "@;
            &&& node.name@.len() == 0 ==> body_refusal(body) == opening + node.op_type@ + ": "@
                + node.reason@
            &&& node.name@.len() > 0 ==> body_refusal(body) == opening + (node.op_type@ + " '"@
                + node.name@ + "'"@) + ": "@ + node.reason@
        },
{
}

} // verus!
