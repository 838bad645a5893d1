//! Why control-flow nodes are refused: the first thing that stands in the way is told.

use vstd::prelude::*;

use crate::ops::controlflow::{
    attr_values, branch_refusal, branches_refusal, directions_valid, if_refusal, lemma_trip_fails,
    loop_refusal, output_axes_refusal, scan_body_refusal, scan_outputs_refusal, scan_refusal,
    trip_after, trip_below,
};
use crate::ops::controlflow_laws::{
    lemma_trip_below, named_axis, output_axis_fits, scan_length,
};
use crate::ops::views::{body_refusal, boundary_refusal, bracketed, NodeView};
use crate::text::{decimal, quoted_text, signed_decimal};

verus! {

/// The wrong number of slots of an `If` is told first, then a slot that carries no tensor, then a
/// condition that is no boolean, then one that cannot be read before anything runs, then the wrong
/// number of bodies.
pub proof fn law_if_reasons(node: NodeView)
    ensures
        ({
            let told = if_refusal(node);
            let shaped = node.inputs@.len() == 1 && node.outputs@.len() > 0;
            let crosses = shaped && boundary_refusal(node, "If"@) is None;
            let decides = crosses && node.inputs@[0].info is Some && node.inputs@[0].info->0.dtype
                == 9;
            let readable = decides && node.inputs@[0].host_readable;
            &&& !shaped ==> told == Some(
                "expects 1 condition input and at least 1 output, got "@ + decimal(
                    node.inputs@.len(),
                ) + "in/"@ + decimal(node.outputs@.len()) + "out"@,
            )
            &&& shaped && !crosses ==> told == boundary_refusal(node, "If"@)
            &&& crosses && !decides ==> told == Some("condition input must have bool dtype"@)
            &&& decides && !readable ==> told == Some(
                "condition must be a graph input/initializer (data-dependent conditions run on CPU)"@,
            )
            &&& readable && node.subgraphs@.len() != 2 ==> told == Some(
                "expects then_branch and else_branch subgraphs"@,
            )
        }),
{
}

/// Of the bodies of an `If` the first that does not fit is told: by its attribute, by its formal
/// inputs, by its outputs, or by what it holds, in that order. If all fit, one may be missing.
pub proof fn law_branch_reasons(node: NodeView, b: int)
    requires
        node.inputs@.len() == 1,
        node.outputs@.len() > 0,
        boundary_refusal(node, "If"@) is None,
        node.inputs@[0].info is Some,
        node.inputs@[0].info->0.dtype == 9,
        node.inputs@[0].host_readable,
        node.subgraphs@.len() == 2,
        0 <= b < 2,
        forall|i: int|
            0 <= i < b ==> branch_refusal(
                #[trigger] node.subgraphs@[i],
                node.outputs@.len(),
            ) is None,
    ensures
        ({
            let told = if_refusal(node);
            let body = node.subgraphs@[b];
            let name = body.attribute@;
            let outputs = node.outputs@.len();
            let named = name == "then_branch"@ || name == "else_branch"@;
            &&& !named ==> told == Some("unsupported subgraph attribute "@ + quoted_text(name))
            &&& named && body.input_names@.len() > 0 ==> told == Some(
                name + " must have no formal inputs"@,
            )
            &&& named && body.input_names@.len() == 0 && body.output_names@.len() != outputs
                ==> told == Some(
                name + " has "@ + decimal(body.output_names@.len())
                    + " outputs but the If node has "@ + decimal(outputs),
            )
            &&& named && body.input_names@.len() == 0 && body.output_names@.len() == outputs && (
            body.uses_float64 || !body.all_claimable) ==> told == Some(
                name + " contains an unclaimable operation"@,
            )
        }),
{
    let outputs = node.outputs@.len();
    let first = node.subgraphs@[0];
    let second = node.subgraphs@[1];
    assert(branches_refusal(node.subgraphs@, outputs, 2) is None);
    assert(branches_refusal(node.subgraphs@, outputs, 1) == branch_refusal(second, outputs));
    assert(branches_refusal(node.subgraphs@, outputs, 0) == (match branch_refusal(first, outputs) {
        Some(reason) => Some(reason),
        None => branch_refusal(second, outputs),
    }));
}

/// A `Loop` whose slots all carry tensors is refused with one text, whatever else stands in the
/// way.
pub proof fn law_loop_reasons(node: NodeView)
    ensures
        boundary_refusal(node, "Loop"@) is Some ==> loop_refusal(node) == boundary_refusal(
            node,
            "Loop"@,
        ),
        boundary_refusal(node, "Loop"@) is None && loop_refusal(node) is Some ==> loop_refusal(node)
            == Some(
            "Loop: only static carried-state loops (constant trip-count + passthrough cond, no scan outputs) are unrolled; scan outputs / dynamic control stay on CPU"@,
        ),
{
}

/// A slot that carries no tensor is told first of a `Scan`, then the number of scan inputs, then
/// the axes of the inputs, then their directions.
pub proof fn law_scan_reasons(node: NodeView)
    ensures
        ({
            let told = scan_refusal(node);
            let scans = node.num_scan_inputs as int;
            let crosses = boundary_refusal(node, "Scan"@) is None;
            let counted = crosses && 0 < scans <= node.inputs@.len();
            let placed = counted && (node.scan_input_axes is Some
                ==> node.scan_input_axes->0@.len() == scans);
            let directed = placed && (node.scan_input_directions is Some
                ==> node.scan_input_directions->0@.len() == scans);
            &&& !crosses ==> told == boundary_refusal(node, "Scan"@)
            &&& crosses && !counted ==> told == Some(
                "num_scan_inputs must be positive and no greater than the "@ + decimal(
                    node.inputs@.len(),
                ) + " inputs, got "@ + signed_decimal(scans),
            )
            &&& counted && !placed ==> told == Some(
                "scan_input_axes"@ + " has "@ + decimal(node.scan_input_axes->0@.len())
                    + " values, expected "@ + decimal(scans as nat),
            )
            &&& placed && !directed ==> told == Some(
                "scan_input_directions"@ + " has "@ + decimal(
                    node.scan_input_directions->0@.len(),
                ) + " values, expected "@ + decimal(scans as nat),
            )
            &&& directed && (exists|i: int|
                0 <= i < scans && node.scan_input_directions is Some && (
                #[trigger] node.scan_input_directions->0@[i] != 0
                    && node.scan_input_directions->0@[i] != 1)) ==> told == Some(
                "scan_input_directions values must be 0 or 1"@,
            )
        }),
{
}

/// The node is a `Scan` whose slots carry tensors and whose input attributes fit.
pub open spec fn inputs_attributed(node: NodeView) -> bool {
    let scans = node.num_scan_inputs as int;
    &&& boundary_refusal(node, "Scan"@) is None
    &&& 0 < scans <= node.inputs@.len()
    &&& node.scan_input_axes is Some ==> node.scan_input_axes->0@.len() == scans
    &&& node.scan_input_directions is Some ==> {
        &&& node.scan_input_directions->0@.len() == scans
        &&& forall|i: int|
            0 <= i < scans ==> #[trigger] node.scan_input_directions->0@[i] == 0
                || node.scan_input_directions->0@[i] == 1
    }
}

/// The first `k` scan inputs are long enough, or of unknown length, and agree in what is known.
pub open spec fn lengths_agree(node: NodeView, k: int) -> bool {
    &&& forall|i: int|
        0 <= i < k ==> (#[trigger] scan_length(node, i)) is Some && (scan_length(node, i)->0 == -1
            || scan_length(node, i)->0 >= 1)
    &&& forall|i: int, j: int|
        0 <= i < k && 0 <= j < k && #[trigger] scan_length(node, i) != #[trigger] scan_length(
            node,
            j,
        ) ==> scan_length(node, i) == Some(-1i64) || scan_length(node, j) == Some(-1i64)
}

/// Of the scan inputs the first that does not fit is told: that its type is not known, that it does
/// not have its axis, that it is empty along it, or that it differs from the length that is known
/// of those before it.
pub proof fn law_scan_length_reasons(node: NodeView, k: int)
    requires
        inputs_attributed(node),
        0 <= k < node.num_scan_inputs,
        lengths_agree(node, k),
    ensures
        ({
            let told = scan_refusal(node);
            let place = node.inputs@.len() - node.num_scan_inputs + k;
            let info = node.inputs@[place].info;
            let axis = named_axis(node.scan_input_axes, k);
            let length = scan_length(node, k);
            let input = "scan input "@ + decimal(place as nat);
            &&& info is None ==> told == Some(input + " lacks tensor type/shape info"@)
            &&& info is Some && length is None ==> told == Some(
                input + " axis "@ + signed_decimal(axis) + " is invalid for rank "@ + decimal(
                    info->0.shape@.len(),
                ),
            )
            &&& length matches Some(length) ==> length != -1 && length < 1 ==> told == Some(
                input + " axis "@ + signed_decimal(axis)
                    + " must be non-empty or dynamic, got shape "@ + bracketed(info->0.shape@),
            )
            &&& length matches Some(length) ==> length >= 1 ==> forall|i: int|
                0 <= i < k && #[trigger] scan_length(node, i) != Some(-1i64) && scan_length(node, i)
                    != Some(length) ==> told == Some(
                    "scan inputs must have equal known sequence lengths, got "@ + signed_decimal(
                        scan_length(node, i)->0 as int,
                    ) + " and "@ + signed_decimal(length as int),
                )
        }),
{
    let scans = node.num_scan_inputs as int;
    let start = node.inputs@.len() - scans;
    let axes = attr_values(node.scan_input_axes, "scan_input_axes"@, scans as nat)->Ok_0;
    assert forall|i: int| 0 <= i < axes.len() implies #[trigger] axes[i] == named_axis(
        node.scan_input_axes,
        i,
    ) by {}
    lemma_trip_below(node, axes, k);
    let known = trip_below(node, axes, start, k)->Ok_0;
    let next = trip_below(node, axes, start, k + 1);
    assert(axes[k] == named_axis(node.scan_input_axes, k));
    assert(next == trip_after(node.inputs@[start + k].info, start + k, axes[k], known));
    if next is Err {
        lemma_trip_fails(node, axes, start, k + 1, scans);
    }
}

/// Once the inputs of a `Scan` fit, its body is told: a missing or a further one, then its inputs,
/// then too few outputs for the carried state, then outputs that are not those of the node, then
/// what it holds.
pub proof fn law_scan_body_reasons(node: NodeView)
    requires
        inputs_attributed(node),
        lengths_agree(node, node.num_scan_inputs as int),
    ensures
        ({
            let told = scan_refusal(node);
            let states = (node.inputs@.len() - node.num_scan_inputs) as nat;
            let body = node.subgraphs@[0];
            let single = node.subgraphs@.len() == 1 && body.attribute@ == "body"@;
            let taken = single && body.input_names@.len() == node.inputs@.len();
            let carries = taken && body.output_names@.len() >= states;
            let handed = carries && node.outputs@.len() == body.output_names@.len();
            &&& !single ==> told == Some("requires exactly one body subgraph"@)
            &&& single && !taken ==> told == Some(
                "body has "@ + decimal(body.input_names@.len()) + " inputs, expected "@ + decimal(
                    node.inputs@.len(),
                ) + " carried-state plus scan inputs"@,
            )
            &&& taken && !carries ==> told == Some(
                "body has "@ + decimal(body.output_names@.len())
                    + " outputs but requires at least "@ + decimal(states)
                    + " carried-state outputs"@,
            )
            &&& carries && !handed ==> told == Some(
                "Scan has "@ + decimal(node.outputs@.len()) + " outputs but body has "@ + decimal(
                    body.output_names@.len(),
                ),
            )
            &&& handed && (body.uses_float64 || !body.all_claimable) ==> told == Some(
                body_refusal(body),
            )
        }),
{
    let scans = node.num_scan_inputs as int;
    let axes = attr_values(node.scan_input_axes, "scan_input_axes"@, scans as nat)->Ok_0;
    assert forall|i: int| 0 <= i < axes.len() implies #[trigger] axes[i] == named_axis(
        node.scan_input_axes,
        i,
    ) by {}
    lemma_trip_below(node, axes, scans);
    assert(scan_body_refusal(node) is Some ==> scan_refusal(node) == scan_body_refusal(node));
}

proof fn lemma_first_output_axis(node: NodeView, axes: Seq<i64>, start: int, k: int, from: int)
    requires
        0 <= from <= k < axes.len(),
        forall|i: int|
            0 <= i < k ==> output_axis_fits(node, start + i, #[trigger] axes[i]),
    ensures
        output_axes_refusal(node, axes, start, from) == output_axes_refusal(node, axes, start, k),
    decreases k - from,
{
    if from < k {
        lemma_first_output_axis(node, axes, start, k, from + 1);
        assert(output_axis_fits(node, start + from, axes[from]));
    }
}

/// Once the inputs and the body of a `Scan` fit, its outputs are told: the number of axes, then of
/// directions, then a direction that is neither zero nor one, then the first output whose type is
/// not known or that does not have its axis.
pub proof fn law_scan_output_reasons(node: NodeView, k: int)
    requires
        inputs_attributed(node),
        lengths_agree(node, node.num_scan_inputs as int),
        scan_body_refusal(node) is None,
    ensures
        ({
            let told = scan_refusal(node);
            let states = node.inputs@.len() - node.num_scan_inputs;
            let count = node.outputs@.len() - states;
            let placed = node.scan_output_axes is Some ==> node.scan_output_axes->0@.len() == count;
            let directed = placed && (node.scan_output_directions is Some
                ==> node.scan_output_directions->0@.len() == count);
            let valid = directed && (node.scan_output_directions is Some ==> forall|i: int|
                0 <= i < count ==> #[trigger] node.scan_output_directions->0@[i] == 0
                    || node.scan_output_directions->0@[i] == 1);
            &&& !placed ==> told == Some(
                "scan_output_axes"@ + " has "@ + decimal(node.scan_output_axes->0@.len())
                    + " values, expected "@ + decimal(count as nat),
            )
            &&& placed && !directed ==> told == Some(
                "scan_output_directions"@ + " has "@ + decimal(
                    node.scan_output_directions->0@.len(),
                ) + " values, expected "@ + decimal(count as nat),
            )
            &&& directed && !valid ==> told == Some("scan_output_directions values must be 0 or 1"@)
            &&& valid && node.scan_output_axes is Some && 0 <= k < count && (forall|i: int|
                0 <= i < k ==> output_axis_fits(
                    node,
                    states + i,
                    #[trigger] node.scan_output_axes->0@[i],
                )) ==> {
                let output = "scan output "@ + decimal((states + k) as nat);
                let info = node.outputs@[states + k].info;
                let axis = node.scan_output_axes->0@[k];
                &&& info is None ==> told == Some(output + " lacks tensor type/shape info"@)
                &&& info is Some && !output_axis_fits(node, states + k, axis) ==> told == Some(
                    output + " axis "@ + signed_decimal(axis as int) + " is invalid for rank "@
                        + decimal(info->0.shape@.len()),
                )
            }
        }),
{
    let scans = node.num_scan_inputs as int;
    let states = node.inputs@.len() - scans;
    let count = node.outputs@.len() - states;
    let axes = attr_values(node.scan_input_axes, "scan_input_axes"@, scans as nat)->Ok_0;
    assert forall|i: int| 0 <= i < axes.len() implies #[trigger] axes[i] == named_axis(
        node.scan_input_axes,
        i,
    ) by {}
    lemma_trip_below(node, axes, scans);
    assert(scan_refusal(node) == scan_outputs_refusal(node));
    assert(count >= 0);
    let made = attr_values(
        node.scan_output_directions,
        "scan_output_directions"@,
        count as nat,
    );
    if node.scan_output_directions is None {
        assert(directions_valid(made->Ok_0));
    }
    if node.scan_output_axes is Some && node.scan_output_axes->0@.len() == count && 0 <= k < count
        && forall|i: int|
        0 <= i < k ==> output_axis_fits(
            node,
            states + i,
            #[trigger] node.scan_output_axes->0@[i],
        ) {
        lemma_first_output_axis(node, node.scan_output_axes->0@, states, k, 0);
    }
}

} // verus!
