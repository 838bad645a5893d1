//! What a `Scan` does, told by its attributes, the shapes of its inputs and what its steps put out.

use vstd::prelude::*;

use crate::engine::NodeDesc;
use crate::ops::scan_machine::{
    action_after, empties_below, empty_of, first_action, first_decline, stack_of, stacks_below,
};
use crate::ops::scan_run::{
    absorbed, form_of, fusion_of, law_scan_collects, lemma_body_found, nothing_collected,
    positions_below, scan_values, setup_of, trips_agree, ArrayId, Decline, ScanForm, ScanProgress,
    ScanSetup,
};
use crate::ops::views::axis_position;

verus! {

/// Entry `i` of a list attribute: zero where the node does not have the attribute.
pub open spec fn listed(node: NodeDesc, name: Seq<char>, i: int) -> int {
    if node.attributes.int_arrays@.contains_key(name) {
        node.attributes.int_arrays@[name]@[i] as int
    } else {
        0
    }
}

/// The node has no such list attribute, or one with `len` entries.
pub open spec fn listed_for_all(node: NodeDesc, name: Seq<char>, len: int) -> bool {
    node.attributes.int_arrays@.contains_key(name) ==> node.attributes.int_arrays@[name]@.len()
        == len
}

/// The position in an array of that rank that an axis means: from the end where it is negative.
pub open spec fn counted(axis: int, rank: nat) -> int {
    if axis < 0 {
        axis + rank
    } else {
        axis
    }
}

/// The axis along which scan input `i` is read.
pub open spec fn input_place(node: NodeDesc, shapes: Seq<Seq<i32>>, i: int) -> int {
    counted(listed(node, "scan_input_axes"@, i), shapes[i].len())
}

proof fn lemma_listed(node: NodeDesc, name: Seq<char>, len: nat)
    ensures
        scan_values(node, name, len) is Ok <==> listed_for_all(node, name, len as int),
        scan_values(node, name, len) matches Ok(values) ==> values.len() == len && forall|i: int|
            0 <= i < len ==> #[trigger] values[i] == listed(node, name, i),
{
}

proof fn lemma_places(node: NodeDesc, axes: Seq<i64>, shapes: Seq<Seq<i32>>, k: int)
    requires
        0 <= k <= shapes.len(),
        axes.len() == shapes.len(),
        forall|i: int|
            0 <= i < axes.len() ==> #[trigger] axes[i] == listed(node, "scan_input_axes"@, i),
    ensures
        positions_below(axes, shapes, k) is Ok <==> forall|i: int|
            0 <= i < k ==> 0 <= #[trigger] input_place(node, shapes, i) < shapes[i].len(),
        positions_below(axes, shapes, k) matches Ok(list) ==> list.len() == k && forall|i: int|
            0 <= i < k ==> #[trigger] list[i] == input_place(node, shapes, i),
    decreases k,
{
    if k > 0 {
        lemma_places(node, axes, shapes, k - 1);
        assert(axes[k - 1] == listed(node, "scan_input_axes"@, k - 1));
        let place = input_place(node, shapes, k - 1);
        assert(axis_position(axes[k - 1] as int, shapes[k - 1].len()) is Some <==> 0 <= place
            < shapes[k - 1].len());
    }
}

/// A `Scan` names how many of its inputs are scanned, the others carry state, and its body is the
/// first one under that name; without either there is no such form.
pub proof fn law_scan_form(node: NodeDesc)
    requires
        node.attributes.ints@.contains_key("num_scan_inputs"@) ==> 0
            < node.attributes.ints@["num_scan_inputs"@] <= node.inputs@.len(),
        node.inputs@.len() <= usize::MAX,
        node.subgraphs@.len() <= usize::MAX,
    ensures
        form_of(node) is Ok <==> node.attributes.ints@.contains_key("num_scan_inputs"@) && exists|
            i: int,
        |
            0 <= i < node.subgraphs@.len() && (#[trigger] node.subgraphs@[i]).attr_name@
                == "body"@,
        form_of(node) matches Ok(form) ==> {
            &&& form.num_scan == node.attributes.ints@["num_scan_inputs"@]
            &&& form.num_state + form.num_scan == node.inputs@.len()
            &&& form.body < node.subgraphs@.len()
            &&& node.subgraphs@[form.body as int].attr_name@ == "body"@
            &&& forall|j: int|
                0 <= j < form.body ==> (#[trigger] node.subgraphs@[j]).attr_name@ != "body"@
        },
{
    lemma_body_found(node.subgraphs@, "body"@);
}

/// A `Scan` is set up exactly if its body puts out at least the carried state, every list attribute
/// that it has gives one entry for each scan input or output, every scan input has the axis that
/// its own entry names, and all of them are equally long along these axes. That length is the
/// number of steps; axes, directions and output axes are the entries of the attributes, zeros where
/// the attribute is missing, and negative input axes are counted from the end.
pub proof fn law_scan_setup(node: NodeDesc, form: ScanForm, shapes: Seq<Seq<i32>>)
    requires
        form.body < node.subgraphs@.len(),
        0 < form.num_scan == shapes.len(),
    ensures
        ({
            let put_out = node.subgraphs@[form.body as int].output_names@.len();
            let count = put_out - form.num_state;
            let made = setup_of(node, form, shapes);
            &&& made is Ok <==> {
                &&& form.num_state <= put_out
                &&& listed_for_all(node, "scan_input_axes"@, shapes.len() as int)
                &&& listed_for_all(node, "scan_input_directions"@, shapes.len() as int)
                &&& listed_for_all(node, "scan_output_axes"@, count)
                &&& listed_for_all(node, "scan_output_directions"@, count)
                &&& forall|i: int|
                    0 <= i < shapes.len() ==> 0 <= #[trigger] input_place(node, shapes, i)
                        < shapes[i].len()
                &&& forall|i: int, j: int|
                    0 <= i < shapes.len() && 0 <= j < shapes.len() ==> shapes[i][
                    #[trigger] input_place(node, shapes, i)] == shapes[j][#[trigger] input_place(
                        node,
                        shapes,
                        j,
                    )]
            }
            &&& made matches Ok(setup) ==> {
                &&& setup.num_state == form.num_state
                &&& setup.num_out == count
                &&& setup.shapes == shapes
                &&& setup.axes.len() == shapes.len()
                &&& setup.input_directions.len() == shapes.len()
                &&& setup.output_axes.len() == count
                &&& setup.output_directions.len() == count
                &&& forall|i: int|
                    0 <= i < shapes.len() ==> #[trigger] setup.axes[i] == input_place(
                        node,
                        shapes,
                        i,
                    )
                &&& forall|i: int|
                    0 <= i < shapes.len() ==> shapes[i][(#[trigger] setup.axes[i]) as int]
                        == setup.trip
                &&& forall|i: int|
                    0 <= i < shapes.len() ==> #[trigger] setup.input_directions[i] == listed(
                        node,
                        "scan_input_directions"@,
                        i,
                    )
                &&& forall|i: int|
                    0 <= i < count ==> #[trigger] setup.output_axes[i] == listed(
                        node,
                        "scan_output_axes"@,
                        i,
                    )
                &&& forall|i: int|
                    0 <= i < count ==> #[trigger] setup.output_directions[i] == listed(
                        node,
                        "scan_output_directions"@,
                        i,
                    )
            }
        }),
{
    let put_out = node.subgraphs@[form.body as int].output_names@.len();
    let scans = shapes.len();
    lemma_listed(node, "scan_input_axes"@, scans);
    lemma_listed(node, "scan_input_directions"@, scans);
    if form.num_state <= put_out {
        let count = (put_out - form.num_state) as nat;
        lemma_listed(node, "scan_output_axes"@, count);
        lemma_listed(node, "scan_output_directions"@, count);
    }
    let axes = scan_values(node, "scan_input_axes"@, scans);
    if axes is Ok {
        lemma_places(node, axes->Ok_0, shapes, scans as int);
        let found = positions_below(axes->Ok_0, shapes, scans as int);
        if found is Ok {
            let list = found->Ok_0;
            assert(list[0] == input_place(node, shapes, 0));
            let trip = shapes[0][list[0] as int];
            if trips_agree(shapes, list, trip) {
                assert forall|i: int| 0 <= i < scans implies shapes[i][#[trigger] input_place(
                    node,
                    shapes,
                    i,
                )] == trip by {
                    assert(list[i] == input_place(node, shapes, i));
                    assert(shapes[i][list[i] as int] == trip);
                }
            } else {
                let i = choose|i: int|
                    0 <= i < shapes.len() && #[trigger] shapes[i][list[i] as int] != trip;
                assert(list[i] == input_place(node, shapes, i));
                assert(shapes[i][input_place(node, shapes, i)] != shapes[0][input_place(
                    node,
                    shapes,
                    0,
                )]);
            }
        }
    }
}

/// While steps are left, the next one reads of every scan input one element along its axis, counted
/// from the front in direction zero and from the back otherwise, and the whole of every other axis.
pub proof fn law_step_reads(
    setup: ScanSetup,
    step: int,
    collected: Seq<Seq<ArrayId>>,
    ranks: Seq<usize>,
)
    requires
        0 <= step < setup.trip,
        setup.axes.len() == setup.shapes.len(),
        forall|i: int|
            0 <= i < setup.shapes.len() ==> #[trigger] setup.axes[i] < setup.shapes[i].len(),
    ensures
        ({
            let action = action_after(setup, step, collected, ranks);
            &&& action is Ok
            &&& action->Ok_0 is Step
            &&& action->Ok_0->Step_0.len() == setup.shapes.len()
            &&& forall|i: int|
                0 <= i < setup.shapes.len() ==> {
                    let slice = #[trigger] action->Ok_0->Step_0[i];
                    let shape = setup.shapes[i];
                    let axis = setup.axes[i] as int;
                    &&& slice.axis == axis
                    &&& slice.start.len() == shape.len()
                    &&& slice.stop.len() == shape.len()
                    &&& slice.start[axis] == (if setup.input_directions[i] == 0 {
                        step
                    } else {
                        setup.trip - 1 - step
                    })
                    &&& slice.stop[axis] == slice.start[axis] + 1
                    &&& forall|k: int|
                        0 <= k < shape.len() && k != axis ==> #[trigger] slice.start[k] == 0
                            && slice.stop[k] == shape[k]
                }
        }),
{
    let slices = action_after(setup, step, collected, ranks)->Ok_0->Step_0;
    assert forall|i: int| 0 <= i < setup.shapes.len() implies {
        let slice = #[trigger] slices[i];
        let shape = setup.shapes[i];
        let axis = setup.axes[i] as int;
        &&& slice.axis == axis
        &&& slice.start.len() == shape.len()
        &&& slice.stop.len() == shape.len()
        &&& slice.start[axis] == (if setup.input_directions[i] == 0 {
            step
        } else {
            setup.trip - 1 - step
        })
        &&& slice.stop[axis] == slice.start[axis] + 1
        &&& forall|k: int|
            0 <= k < shape.len() && k != axis ==> #[trigger] slice.start[k] == 0 && slice.stop[k]
                == shape[k]
    } by {
        let axis = setup.axes[i] as int;
        assert(setup.axes[i] < setup.shapes[i].len());
    }
}

proof fn lemma_stacks(
    setup: ScanSetup,
    collected: Seq<Seq<ArrayId>>,
    ranks: Seq<usize>,
    k: int,
)
    requires
        0 <= k,
    ensures
        stacks_below(setup, collected, ranks, k) is Ok <==> forall|i: int|
            0 <= i < k ==> (#[trigger] stack_of(setup, collected, ranks, i)) is Ok,
        stacks_below(setup, collected, ranks, k) matches Ok(list) ==> list.len() == k && forall|
            i: int,
        |
            0 <= i < k ==> #[trigger] list[i] == stack_of(setup, collected, ranks, i)->Ok_0,
    decreases k,
{
    if k > 0 {
        lemma_stacks(setup, collected, ranks, k - 1);
        let last = stack_of(setup, collected, ranks, k - 1);
    }
}

/// The axis that output `i` gets: it is one rank above its elements.
pub open spec fn output_place(setup: ScanSetup, ranks: Seq<usize>, i: int) -> int {
    counted(setup.output_axes[i] as int, (ranks[i] + 1) as nat)
}

/// Once all steps of a scan with at least one step are taken, it ends. If every output axis lies in
/// its output, output `i` is stacked along its axis from what the steps put out for it, in the
/// order of the steps in direction zero and backwards otherwise; if one does not, the scan fails.
pub proof fn law_scan_stacks(
    setup: ScanSetup,
    start: Seq<ArrayId>,
    steps: Seq<Seq<ArrayId>>,
    ranks: Seq<usize>,
)
    requires
        0 < setup.trip == steps.len(),
        forall|t: int|
            0 <= t < steps.len() ==> (#[trigger] steps[t]).len() >= setup.num_state + setup.num_out,
    ensures
        ({
            let progress = absorbed(
                ScanProgress { state: start, collected: nothing_collected(setup.num_out) },
                setup.num_state,
                setup.num_out,
                steps,
            );
            let action = action_after(setup, steps.len() as int, progress.collected, ranks);
            &&& progress.state == steps.last().take(setup.num_state as int)
            &&& action is Ok <==> forall|i: int|
                0 <= i < setup.num_out ==> 0 <= #[trigger] output_place(setup, ranks, i)
                    <= ranks[i]
            &&& action is Ok ==> {
                &&& action->Ok_0 is Stack
                &&& action->Ok_0->Stack_0.len() == setup.num_out
                &&& forall|i: int|
                    0 <= i < setup.num_out ==> {
                        let (axis, parts) = #[trigger] action->Ok_0->Stack_0[i];
                        &&& axis == output_place(setup, ranks, i)
                        &&& parts.len() == setup.trip
                        &&& forall|t: int|
                            0 <= t < setup.trip ==> #[trigger] parts[t] == steps[if setup.output_directions[i]
                                == 0 {
                                t
                            } else {
                                setup.trip - 1 - t
                            }][setup.num_state + i]
                    }
            }
        }),
{
    let begun = ScanProgress { state: start, collected: nothing_collected(setup.num_out) };
    law_scan_collects(begun, setup.num_state, setup.num_out, steps);
    let collected = absorbed(begun, setup.num_state, setup.num_out, steps).collected;
    lemma_stacks(setup, collected, ranks, setup.num_out as int);
    assert forall|i: int| 0 <= i < setup.num_out implies ((#[trigger] stack_of(
        setup,
        collected,
        ranks,
        i,
    )) is Ok <==> 0 <= output_place(setup, ranks, i) <= ranks[i]) by {
        assert(collected[i].len() == steps.len());
    }
    let action = action_after(setup, steps.len() as int, collected, ranks);
    if action is Ok {
        let list = action->Ok_0->Stack_0;
        assert forall|i: int| 0 <= i < setup.num_out implies 0 <= #[trigger] output_place(
            setup,
            ranks,
            i,
        ) <= ranks[i] by {
            assert(stack_of(setup, collected, ranks, i) is Ok);
        }
        assert forall|i: int| 0 <= i < setup.num_out implies {
            let (axis, parts) = #[trigger] list[i];
            &&& axis == output_place(setup, ranks, i)
            &&& parts.len() == setup.trip
            &&& forall|t: int|
                0 <= t < setup.trip ==> #[trigger] parts[t] == steps[if setup.output_directions[i]
                    == 0 {
                    t
                } else {
                    setup.trip - 1 - t
                }][setup.num_state + i]
        } by {
            assert(stack_of(setup, collected, ranks, i) is Ok);
            assert(list[i] == stack_of(setup, collected, ranks, i)->Ok_0);
        }
    } else {
        let i = choose|i: int|
            0 <= i < setup.num_out && !((#[trigger] stack_of(setup, collected, ranks, i)) is Ok);
        assert(!(0 <= output_place(setup, ranks, i) <= ranks[i]));
    }
}

proof fn lemma_empties(setup: ScanSetup, templates: Seq<Seq<i32>>, k: int)
    requires
        0 <= k,
    ensures
        empties_below(setup, templates, k) is Ok <==> forall|i: int|
            0 <= i < k ==> (#[trigger] empty_of(setup, templates, i)) is Ok,
        empties_below(setup, templates, k) matches Ok(list) ==> list.len() == k && forall|i: int|
            0 <= i < k ==> #[trigger] list[i] == empty_of(setup, templates, i)->Ok_0,
    decreases k,
{
    if k > 0 {
        lemma_empties(setup, templates, k - 1);
        let last = empty_of(setup, templates, k - 1);
    }
}

/// The axis along which output `i` of an empty scan has no elements.
pub open spec fn empty_place(setup: ScanSetup, templates: Seq<Seq<i32>>, i: int) -> int {
    counted(setup.output_axes[i] as int, (templates[setup.num_state + i].len() + 1) as nat)
}

/// Output `i` of an empty scan has the shape of the body's output for it, with an axis of length
/// zero at the place of the output's axis.
pub proof fn law_empty_outputs(setup: ScanSetup, templates: Seq<Seq<i32>>)
    requires
        templates.len() >= setup.num_state + setup.num_out,
    ensures
        ({
            let made = empties_below(setup, templates, setup.num_out as int);
            &&& made is Ok <==> forall|i: int|
                0 <= i < setup.num_out ==> 0 <= #[trigger] empty_place(setup, templates, i)
                    <= templates[setup.num_state + i].len()
            &&& made matches Ok(shapes) ==> {
                &&& shapes.len() == setup.num_out
                &&& forall|i: int|
                    0 <= i < setup.num_out ==> {
                        let shape = #[trigger] shapes[i];
                        let element = templates[setup.num_state + i];
                        let axis = empty_place(setup, templates, i);
                        &&& shape.len() == element.len() + 1
                        &&& shape[axis] == 0
                        &&& shape.remove(axis) == element
                    }
            }
        }),
{
    lemma_empties(setup, templates, setup.num_out as int);
    let made = empties_below(setup, templates, setup.num_out as int);
    assert forall|i: int| 0 <= i < setup.num_out implies ((#[trigger] empty_of(setup, templates, i))
        is Ok <==> 0 <= empty_place(setup, templates, i) <= templates[setup.num_state
        + i].len()) by {}
    if made is Ok {
        let shapes = made->Ok_0;
        assert forall|i: int| 0 <= i < setup.num_out implies 0 <= #[trigger] empty_place(
            setup,
            templates,
            i,
        ) <= templates[setup.num_state + i].len() by {
            assert(empty_of(setup, templates, i) is Ok);
        }
        assert forall|i: int| 0 <= i < setup.num_out implies {
            let shape = #[trigger] shapes[i];
            let element = templates[setup.num_state + i];
            let axis = empty_place(setup, templates, i);
            &&& shape.len() == element.len() + 1
            &&& shape[axis] == 0
            &&& shape.remove(axis) == element
        } by {
            assert(empty_of(setup, templates, i) is Ok);
            assert(shapes[i] == empty_of(setup, templates, i)->Ok_0);
            let axis = empty_place(setup, templates, i);
            assert(shapes[i].remove(axis) =~= templates[setup.num_state + i]);
        }
    } else {
        let i = choose|i: int|
            0 <= i < setup.num_out && !((#[trigger] empty_of(setup, templates, i)) is Ok);
        assert(!(0 <= empty_place(setup, templates, i) <= templates[setup.num_state + i].len()));
    }
}

/// The fused kernel is tried exactly if there is something to scan, the body is recognised, the
/// kernel is not switched off, there is one output, stacked along its first axis, and all inputs
/// are read along their first axis in the same direction. It is told of the directions that are
/// one. Otherwise a scan with steps takes them one by one, and an empty one asks for the shapes of
/// the body's outputs, on elements whose scan axis is left out, if it has outputs at all.
pub proof fn law_scan_begins(
    setup: ScanSetup,
    collected: Seq<Seq<ArrayId>>,
    ranks: Seq<usize>,
    recognised: bool,
    disabled: bool,
)
    requires
        setup.axes.len() == setup.shapes.len(),
        setup.input_directions.len() == setup.shapes.len(),
        forall|i: int|
            0 <= i < setup.shapes.len() ==> #[trigger] setup.axes[i] < setup.shapes[i].len(),
    ensures
        ({
            let action = first_action(setup, collected, ranks, recognised, disabled);
            let kernel = {
                &&& setup.trip != 0
                &&& recognised
                &&& !disabled
                &&& setup.num_out == 1
                &&& setup.output_axes[0] == 0
                &&& forall|i: int| 0 <= i < setup.axes.len() ==> #[trigger] setup.axes[i] == 0
                &&& forall|i: int, j: int|
                    0 <= i < setup.input_directions.len() && 0 <= j < setup.input_directions.len()
                        ==> #[trigger] setup.input_directions[i]
                        == #[trigger] setup.input_directions[j]
            };
            &&& (action is Ok && action->Ok_0 is Kernel) <==> kernel
            &&& kernel ==> action->Ok_0->reverse_in == (setup.input_directions[0] == 1)
                && action->Ok_0->reverse_out == (setup.output_directions[0] == 1) && first_decline(
                setup,
                recognised,
                disabled,
            ) is None
            &&& !kernel && setup.trip != 0 ==> action == action_after(setup, 0, collected, ranks)
            &&& !kernel && setup.trip != 0 && recognised ==> first_decline(
                setup,
                recognised,
                disabled,
            ) == Some(
                if disabled {
                    Decline::Disabled
                } else {
                    Decline::NotFusable
                },
            )
            &&& setup.trip == 0 && setup.num_out == 0 ==> action is Ok && action->Ok_0 is Empty
                && action->Ok_0->Empty_0.len() == 0
            &&& setup.trip == 0 && setup.num_out != 0 ==> {
                &&& action is Ok
                &&& action->Ok_0 is Template
                &&& action->Ok_0->Template_0.len() == setup.shapes.len()
                &&& forall|i: int|
                    0 <= i < setup.shapes.len() ==> {
                        let element = #[trigger] action->Ok_0->Template_0[i];
                        let axis = setup.axes[i] as int;
                        element.insert(axis, setup.shapes[i][axis]) == setup.shapes[i]
                    }
            }
        }),
{
    let action = first_action(setup, collected, ranks, recognised, disabled);
    if setup.trip == 0 && setup.num_out != 0 {
        assert forall|i: int| 0 <= i < setup.shapes.len() implies {
            let element = #[trigger] action->Ok_0->Template_0[i];
            let axis = setup.axes[i] as int;
            element.insert(axis, setup.shapes[i][axis]) == setup.shapes[i]
        } by {
            let axis = setup.axes[i] as int;
            assert(setup.axes[i] < setup.shapes[i].len());
            assert(setup.shapes[i].remove(axis).insert(axis, setup.shapes[i][axis])
                =~= setup.shapes[i]);
        }
    }
    if setup.trip != 0 && !(fusion_of(setup, recognised, disabled) is Kernel) {
        if setup.trip > 0 {
            assert(!(action is Ok && action->Ok_0 is Kernel));
        }
    }
}

/// Why the fused kernel is not used is told of a scan with steps only: of a body that is recognised,
/// that the kernel is switched off or computes another form; of one that is not, that it was not
/// recognised, if it has two states, four scan inputs and one output; of any other, nothing.
pub proof fn law_scan_declines(setup: ScanSetup, recognised: bool, disabled: bool)
    ensures
        ({
            let told = first_decline(setup, recognised, disabled);
            let looks_alike = setup.num_state == 2 && setup.shapes.len() == 4 && setup.num_out == 1;
            &&& setup.trip == 0 ==> told is None
            &&& setup.trip != 0 && recognised && disabled ==> told == Some(Decline::Disabled)
            &&& setup.trip != 0 && !recognised && looks_alike ==> told == Some(
                Decline::NotRecognised,
            )
            &&& setup.trip != 0 && !recognised && !looks_alike ==> told is None
            &&& told == Some(Decline::NotFusable) ==> setup.trip != 0 && recognised && !disabled
            &&& told != Some(Decline::Unsupported)
        }),
{
}

} // verus!
