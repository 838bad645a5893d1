//! Unrolling a `Scan`: which slices each step reads, and how its outputs are put together.
//!
//! Arrays are known by numbers that the caller hands out. The caller cuts slices, runs the body and
//! stacks arrays; everything that is decided about them is decided here.

use vstd::prelude::*;
use vstd::string::StringExecFns;

use crate::engine::{NodeDesc, SubgraphDesc};
use crate::ops::controlflow::{attr_values, read_attr};
use crate::ops::views::{axis_position, normalized_axis};
use crate::text::{decimal, decimal_text, join2, join3, same_text, signed_decimal, signed_text};

verus! {

/// The number of an array.
pub type ArrayId = usize;

/// The first body with that attribute name.
pub open spec fn body_index(bodies: Seq<SubgraphDesc>, attribute: Seq<char>) -> Option<int> {
    if exists|i: int| is_first_body(bodies, attribute, i) {
        Some(choose|i: int| is_first_body(bodies, attribute, i))
    } else {
        None
    }
}

pub open spec fn is_first_body(bodies: Seq<SubgraphDesc>, attribute: Seq<char>, i: int) -> bool {
    &&& 0 <= i < bodies.len()
    &&& bodies[i].attr_name@ == attribute
    &&& forall|j: int| 0 <= j < i ==> (#[trigger] bodies[j]).attr_name@ != attribute
}

/// A body is found exactly if there is one of that name, and it has that name.
pub proof fn lemma_body_found(bodies: Seq<SubgraphDesc>, attribute: Seq<char>)
    ensures
        body_index(bodies, attribute) is None <==> forall|i: int|
            0 <= i < bodies.len() ==> (#[trigger] bodies[i]).attr_name@ != attribute,
        body_index(bodies, attribute) matches Some(i) ==> is_first_body(bodies, attribute, i),
{
    if exists|i: int| 0 <= i < bodies.len() && (#[trigger] bodies[i]).attr_name@ == attribute {
        let i = choose|i: int| 0 <= i < bodies.len() && (#[trigger] bodies[i]).attr_name@
            == attribute;
        lemma_first_body(bodies, attribute, i);
    }
    if body_index(bodies, attribute) is Some {
        let i = choose|i: int| is_first_body(bodies, attribute, i);
        assert(is_first_body(bodies, attribute, i));
        assert(bodies[i].attr_name@ == attribute);
    }
}

proof fn lemma_first_body(bodies: Seq<SubgraphDesc>, attribute: Seq<char>, i: int)
    requires
        0 <= i < bodies.len(),
        bodies[i].attr_name@ == attribute,
    ensures
        exists|j: int| is_first_body(bodies, attribute, j),
    decreases i,
{
    if exists|j: int| 0 <= j < i && (#[trigger] bodies[j]).attr_name@ == attribute {
        let j = choose|j: int| 0 <= j < i && (#[trigger] bodies[j]).attr_name@ == attribute;
        lemma_first_body(bodies, attribute, j);
    } else {
        assert(is_first_body(bodies, attribute, i));
    }
}

/// Finds the body with that attribute name.
pub fn find_body(node: &NodeDesc, attribute: &str) -> (index: Option<usize>)
    ensures
        match index {
            Some(i) => i < node.subgraphs@.len() && body_index(node.subgraphs@, attribute@) == Some(
                i as int,
            ),
            None => body_index(node.subgraphs@, attribute@) is None,
        },
{
    let ghost bodies = node.subgraphs@;
    let mut at: usize = 0;
    while at < node.subgraphs.len()
        invariant
            at <= bodies.len(),
            bodies == node.subgraphs@,
            forall|j: int| 0 <= j < at ==> (#[trigger] bodies[j]).attr_name@ != attribute@,
        decreases bodies.len() - at,
    {
        if same_text(node.subgraphs[at].attr_name.as_str(), attribute) {
            proof {
                assert(is_first_body(bodies, attribute@, at as int));
                let i = choose|i: int| is_first_body(bodies, attribute@, i);
                if i < at {
                    assert(bodies[i].attr_name@ != attribute@);
                } else if at < i {
                    assert(bodies[at as int].attr_name@ != attribute@);
                }
            }
            return Some(at);
        }
        at = at + 1;
    }
    None
}

/// What a `Scan` says of itself before its inputs are known.
pub struct ScanForm {
    pub num_scan: usize,
    pub num_state: usize,
    pub body: usize,
}

/// The number of scan inputs that the node names.
pub open spec fn named_scans(node: NodeDesc) -> Option<i64> {
    if node.attributes.ints@.contains_key("num_scan_inputs"@) {
        Some(node.attributes.ints@["num_scan_inputs"@])
    } else {
        None
    }
}

/// The form of a `Scan`.
pub open spec fn form_of(node: NodeDesc) -> Result<ScanForm, Seq<char>> {
    match named_scans(node) {
        None => Err("MLX Scan: missing num_scan_inputs"@),
        Some(scans) => match body_index(node.subgraphs@, "body"@) {
            None => Err("MLX Scan: missing body subgraph"@),
            Some(body) => Ok(
                ScanForm {
                    num_scan: scans as usize,
                    num_state: (node.inputs@.len() - scans) as usize,
                    body: body as usize,
                },
            ),
        },
    }
}

/// Reads the form of a `Scan`.
pub fn scan_form(node: &NodeDesc) -> (form: Result<ScanForm, String>)
    requires
        named_scans(*node) matches Some(scans) ==> 0 < scans <= node.inputs@.len(),
    ensures
        match form {
            Ok(form) => form_of(*node) == Ok::<ScanForm, Seq<char>>(form) && form.body
                < node.subgraphs@.len() && form.num_state + form.num_scan == node.inputs@.len(),
            Err(failure) => form_of(*node) == Err::<ScanForm, Seq<char>>(failure@),
        },
{
    let inputs: usize = node.inputs.len();
    match node.attributes.ints.get("num_scan_inputs") {
        None => Err("MLX Scan: missing num_scan_inputs".to_owned()),
        Some(scans) => {
            let num_scan: usize = *scans as usize;
            match find_body(node, "body") {
                None => Err("MLX Scan: missing body subgraph".to_owned()),
                Some(body) => Ok(ScanForm { num_scan, num_state: inputs - num_scan, body }),
            }
        },
    }
}

/// A list attribute of the node, if it has it.
pub open spec fn list_attr(node: NodeDesc, name: Seq<char>) -> Option<Vec<i64>> {
    if node.attributes.int_arrays@.contains_key(name) {
        Some(node.attributes.int_arrays@[name])
    } else {
        None
    }
}

/// The values of a list attribute: zeros if it is missing.
pub open spec fn scan_values(
    node: NodeDesc,
    name: Seq<char>,
    len: nat,
) -> Result<Seq<i64>, Seq<char>> {
    attr_values(list_attr(node, name), "MLX Scan: "@ + name, len)
}

/// The values of a list attribute: zeros if it is missing.
pub fn scan_attr(node: &NodeDesc, name: &str, len: usize) -> (values: Result<Vec<i64>, String>)
    ensures
        match values {
            Ok(values) => scan_values(*node, name@, len as nat) == Ok::<Seq<i64>, Seq<char>>(
                values@,
            ),
            Err(reason) => scan_values(*node, name@, len as nat) == Err::<Seq<i64>, Seq<char>>(
                reason@,
            ),
        },
{
    match node.attributes.int_arrays.get(name) {
        None => read_attr(&None, name, len),
        Some(values) => if values.len() == len {
            let copy: Vec<i64> = values.clone();
            assert(copy@ =~= values@);
            Ok(copy)
        } else {
            let label: String = join2("MLX Scan: ", name);
            let mut text: String = join3(
                label.as_str(),
                " has ",
                decimal_text(values.len() as u64).as_str(),
            );
            text.append(" values, expected ");
            text.append(decimal_text(len as u64).as_str());
            Err(text)
        },
    }
}

/// Shapes as sequences.
pub open spec fn shape_rows(shapes: Seq<Vec<i32>>) -> Seq<Seq<i32>> {
    Seq::new(shapes.len(), |i: int| shapes[i]@)
}

/// How a `Scan` runs: the axes and directions of its inputs and outputs, and its number of steps.
#[verifier::ext_equal]
pub ghost struct ScanSetup {
    pub num_state: nat,
    pub num_out: nat,
    pub shapes: Seq<Seq<i32>>,
    pub axes: Seq<nat>,
    pub input_directions: Seq<i64>,
    pub output_axes: Seq<i64>,
    pub output_directions: Seq<i64>,
    pub trip: i32,
}

/// The positions of the first `k` scan axes.
pub open spec fn positions_below(axes: Seq<i64>, shapes: Seq<Seq<i32>>, k: int) -> Result<
    Seq<nat>,
    Seq<char>,
>
    decreases k,
{
    if k <= 0 {
        Ok(Seq::empty())
    } else {
        match positions_below(axes, shapes, k - 1) {
            Err(reason) => Err(reason),
            Ok(before) => match axis_position(axes[k - 1] as int, shapes[k - 1].len()) {
                Some(position) => Ok(before.push(position)),
                None => Err(
                    "MLX Scan: input axis "@ + signed_decimal(axes[k - 1] as int)
                        + " invalid for rank "@ + decimal(shapes[k - 1].len()),
                ),
            },
        }
    }
}

proof fn lemma_positions(axes: Seq<i64>, shapes: Seq<Seq<i32>>, k: int, n: int)
    requires
        0 <= k <= n <= shapes.len(),
    ensures
        positions_below(axes, shapes, k) is Err ==> positions_below(axes, shapes, n)
            == positions_below(axes, shapes, k),
        positions_below(axes, shapes, n) matches Ok(list) ==> list.len() == n && forall|i: int|
            0 <= i < n ==> #[trigger] list[i] < shapes[i].len() && list[i] == (if axes[i] < 0 {
                axes[i] + shapes[i].len()
            } else {
                axes[i] as int
            }),
    decreases n,
{
    if n > 0 {
        if k < n {
            lemma_positions(axes, shapes, k, n - 1);
        } else {
            lemma_positions(axes, shapes, k - 1, n - 1);
        }
    }
}

/// Every input has `trip` elements along its axis.
pub open spec fn trips_agree(shapes: Seq<Seq<i32>>, axes: Seq<nat>, trip: i32) -> bool {
    forall|i: int| 0 <= i < shapes.len() ==> #[trigger] shapes[i][axes[i] as int] == trip
}

/// The setup of a `Scan` whose inputs have these shapes, or the first failure.
pub open spec fn setup_of(
    node: NodeDesc,
    form: ScanForm,
    shapes: Seq<Seq<i32>>,
) -> Result<ScanSetup, Seq<char>> {
    let outputs = node.subgraphs@[form.body as int].output_names@.len();
    let count = (outputs - form.num_state) as nat;
    let scans = form.num_scan as nat;
    if outputs < form.num_state {
        Err("MLX Scan: body output arity"@)
    } else {
        match (
            scan_values(node, "scan_input_axes"@, scans),
            scan_values(node, "scan_input_directions"@, scans),
            scan_values(node, "scan_output_axes"@, count),
            scan_values(node, "scan_output_directions"@, count),
        ) {
            (Err(reason), _, _, _) => Err(reason),
            (_, Err(reason), _, _) => Err(reason),
            (_, _, Err(reason), _) => Err(reason),
            (_, _, _, Err(reason)) => Err(reason),
            (Ok(input_axes), Ok(input_directions), Ok(output_axes), Ok(output_directions)) => {
                match positions_below(input_axes, shapes, shapes.len() as int) {
                    Err(reason) => Err(reason),
                    Ok(axes) => {
                        let trip = shapes[0][axes[0] as int];
                        if !trips_agree(shapes, axes, trip) {
                            Err("MLX Scan: scan input sequence lengths differ"@)
                        } else {
                            Ok(
                                ScanSetup {
                                    num_state: form.num_state as nat,
                                    num_out: count,
                                    shapes,
                                    axes,
                                    input_directions,
                                    output_axes,
                                    output_directions,
                                    trip,
                                },
                            )
                        }
                    },
                }
            },
        }
    }
}

/// A `Scan` while it runs.
pub struct ScanRun {
    pub num_state: usize,
    pub num_out: usize,
    pub shapes: Vec<Vec<i32>>,
    pub axes: Vec<usize>,
    pub input_directions: Vec<i64>,
    pub output_axes: Vec<i64>,
    pub output_directions: Vec<i64>,
    pub trip: i32,
    /// The number of steps that were taken.
    pub step: i32,
    pub state: Vec<ArrayId>,
    /// What each scan output collected, one array for each step.
    pub collected: Vec<Vec<ArrayId>>,
}

/// How far a `Scan` has come.
#[verifier::ext_equal]
pub ghost struct ScanProgress {
    pub state: Seq<ArrayId>,
    pub collected: Seq<Seq<ArrayId>>,
}

pub open spec fn id_lists(lists: Seq<Vec<ArrayId>>) -> Seq<Seq<ArrayId>> {
    Seq::new(lists.len(), |i: int| lists[i]@)
}

/// Outputs that have collected nothing yet.
pub open spec fn nothing_collected(num_out: nat) -> Seq<Seq<ArrayId>> {
    Seq::new(num_out, |i: int| Seq::empty())
}

/// The progress after one more step that put out `outputs`.
pub open spec fn absorb(
    progress: ScanProgress,
    num_state: nat,
    num_out: nat,
    outputs: Seq<ArrayId>,
) -> ScanProgress {
    ScanProgress {
        state: outputs.take(num_state as int),
        collected: Seq::new(
            num_out,
            |i: int| progress.collected[i].push(outputs[num_state + i]),
        ),
    }
}

/// The progress after steps that put out `steps`, in that order.
pub open spec fn absorbed(
    start: ScanProgress,
    num_state: nat,
    num_out: nat,
    steps: Seq<Seq<ArrayId>>,
) -> ScanProgress
    decreases steps.len(),
{
    if steps.len() == 0 {
        start
    } else {
        absorb(
            absorbed(start, num_state, num_out, steps.drop_last()),
            num_state,
            num_out,
            steps.last(),
        )
    }
}

/// The element that a step reads: counted from the front, or from the back.
pub open spec fn step_index(trip: int, direction: i64, step: int) -> int {
    if direction == 0 {
        step
    } else {
        trip - 1 - step
    }
}

/// A slice of one array: `stop` is exclusive, and `axis` has one element left.
pub struct SliceBounds {
    pub start: Vec<i32>,
    pub stop: Vec<i32>,
    pub axis: usize,
}

/// What to do with a body that a fused kernel may compute.
#[derive(Clone, Copy, Debug, PartialEq, Eq, Structural)]
pub enum Fusion {
    /// Try the kernel.
    Kernel { reverse_in: bool, reverse_out: bool },
    /// Take the steps one by one; the reason is recorded, if there is one.
    Unroll(Option<Decline>),
}

/// Why a fused kernel is not used.
#[derive(Clone, Copy, Debug, PartialEq, Eq, Structural)]
pub enum Decline {
    Disabled,
    NotFusable,
    Unsupported,
    NotRecognised,
}

impl Decline {
    pub open spec fn words(self) -> Seq<char> {
        match self {
            Decline::Disabled =>
                "fused selective scan disabled by kill-switch -> unrolled per timestep"@,
            Decline::NotFusable =>
                "selective-scan form (axes/directions/outputs) not fusable -> unrolled"@,
            Decline::Unsupported =>
                "selective-scan body matched but shape/dtype unsupported by the fused kernel -> unrolled"@,
            Decline::NotRecognised =>
                "selective-scan-shaped body was not recognised -> unrolled per timestep"@,
        }
    }

    pub fn text(self) -> (text: &'static str)
        ensures
            text@ == self.words(),
            self is Disabled ==> text@
                == "fused selective scan disabled by kill-switch -> unrolled per timestep"@,
            self is NotFusable ==> text@
                == "selective-scan form (axes/directions/outputs) not fusable -> unrolled"@,
            self is Unsupported ==> text@
                == "selective-scan body matched but shape/dtype unsupported by the fused kernel -> unrolled"@,
            self is NotRecognised ==> text@
                == "selective-scan-shaped body was not recognised -> unrolled per timestep"@,
    {
        match self {
            Decline::Disabled =>
                "fused selective scan disabled by kill-switch -> unrolled per timestep",
            Decline::NotFusable =>
                "selective-scan form (axes/directions/outputs) not fusable -> unrolled",
            Decline::Unsupported =>
                "selective-scan body matched but shape/dtype unsupported by the fused kernel -> unrolled",
            Decline::NotRecognised =>
                "selective-scan-shaped body was not recognised -> unrolled per timestep",
        }
    }
}

/// All equal to the first.
pub open spec fn uniform(values: Seq<i64>) -> bool {
    forall|i: int| 0 <= i < values.len() ==> #[trigger] values[i] == values[0]
}

/// The kernel computes this form: one output, stacked in front, inputs read along their first axis
/// in one direction.
pub open spec fn fusable(setup: ScanSetup) -> bool {
    &&& setup.num_out == 1
    &&& uniform(setup.input_directions)
    &&& forall|i: int| 0 <= i < setup.axes.len() ==> #[trigger] setup.axes[i] == 0
    &&& setup.output_axes[0] == 0
}

/// What to do with a body that was, or was not, recognised.
pub open spec fn fusion_of(setup: ScanSetup, recognised: bool, disabled: bool) -> Fusion {
    if recognised && disabled {
        Fusion::Unroll(Some(Decline::Disabled))
    } else if recognised && !fusable(setup) {
        Fusion::Unroll(Some(Decline::NotFusable))
    } else if recognised {
        Fusion::Kernel {
            reverse_in: setup.input_directions[0] == 1,
            reverse_out: setup.output_directions[0] == 1,
        }
    } else if setup.num_state == 2 && setup.shapes.len() == 4 && setup.num_out == 1 {
        Fusion::Unroll(Some(Decline::NotRecognised))
    } else {
        Fusion::Unroll(None)
    }
}

/// Why an output axis is refused.
pub open spec fn output_axis_failure(axis: i64, rank: nat) -> Seq<char> {
    "MLX Scan: output axis "@ + signed_decimal(axis as int) + " invalid for rank "@ + decimal(rank)
}

fn axis_failure(axis: i64, rank: usize) -> (text: String)
    ensures
        text@ == output_axis_failure(axis, rank as nat),
{
    let mut text: String = join3(
        "MLX Scan: output axis ",
        signed_text(axis).as_str(),
        " invalid for rank ",
    );
    text.append(decimal_text(rank as u64).as_str());
    text
}

/// The order in which collected arrays are stacked.
pub open spec fn stacking(parts: Seq<ArrayId>, direction: i64) -> Seq<ArrayId> {
    if direction == 0 {
        parts
    } else {
        parts.reverse()
    }
}

pub open spec fn nats(list: Seq<usize>) -> Seq<nat> {
    Seq::new(list.len(), |i: int| list[i] as nat)
}

impl ScanRun {
    /// The setup of the run.
    pub open spec fn setup(&self) -> ScanSetup {
        ScanSetup {
            num_state: self.num_state as nat,
            num_out: self.num_out as nat,
            shapes: shape_rows(self.shapes@),
            axes: nats(self.axes@),
            input_directions: self.input_directions@,
            output_axes: self.output_axes@,
            output_directions: self.output_directions@,
            trip: self.trip,
        }
    }

    pub open spec fn progress(&self) -> ScanProgress {
        ScanProgress { state: self.state@, collected: id_lists(self.collected@) }
    }

    pub open spec fn wf(&self) -> bool {
        let setup = self.setup();
        &&& setup.shapes.len() > 0
        &&& setup.axes.len() == setup.shapes.len()
        &&& setup.input_directions.len() == setup.shapes.len()
        &&& setup.output_axes.len() == setup.num_out
        &&& setup.output_directions.len() == setup.num_out
        &&& forall|i: int|
            0 <= i < setup.shapes.len() ==> #[trigger] setup.axes[i] < setup.shapes[i].len()
        &&& trips_agree(setup.shapes, setup.axes, setup.trip)
        &&& self.state@.len() == self.num_state
        &&& self.collected@.len() == self.num_out
        &&& 0 <= self.step
    }

    /// Sets a `Scan` up once its inputs are known.
    pub fn start(
        node: &NodeDesc,
        form: &ScanForm,
        state: Vec<ArrayId>,
        shapes: Vec<Vec<i32>>,
    ) -> (run: Result<ScanRun, String>)
        requires
            form.body < node.subgraphs@.len(),
            form.num_scan > 0,
            shapes@.len() == form.num_scan,
            state@.len() == form.num_state,
        ensures
            match run {
                Ok(run) => {
                    &&& run.wf()
                    &&& setup_of(*node, *form, shape_rows(shapes@)) == Ok::<ScanSetup, Seq<char>>(
                        run.setup(),
                    )
                    &&& forall|i: int|
                        0 <= i < shapes@.len() ==> {
                            let lists = node.attributes.int_arrays@;
                            let axis = if lists.contains_key("scan_input_axes"@) {
                                lists["scan_input_axes"@]@[i] as int
                            } else {
                                0
                            };
                            #[trigger] run.axes@[i] == (if axis < 0 {
                                axis + shapes@[i]@.len()
                            } else {
                                axis
                            })
                        }
                    &&& run.step == 0
                    &&& run.progress() == (ScanProgress {
                        state: state@,
                        collected: nothing_collected(run.num_out as nat),
                    })
                },
                Err(reason) => setup_of(*node, *form, shape_rows(shapes@)) == Err::<
                    ScanSetup,
                    Seq<char>,
                >(reason@),
            },
    {
        let ghost rows = shape_rows(shapes@);
        let outputs: usize = node.subgraphs[form.body].output_names.len();
        if outputs < form.num_state {
            return Err("MLX Scan: body output arity".to_owned());
        }
        let num_out: usize = outputs - form.num_state;
        let input_axes: Vec<i64> = match scan_attr(node, "scan_input_axes", form.num_scan) {
            Err(reason) => {
                return Err(reason);
            },
            Ok(values) => values,
        };
        let input_directions: Vec<i64> = match scan_attr(
            node,
            "scan_input_directions",
            form.num_scan,
        ) {
            Err(reason) => {
                return Err(reason);
            },
            Ok(values) => values,
        };
        let output_axes: Vec<i64> = match scan_attr(node, "scan_output_axes", num_out) {
            Err(reason) => {
                return Err(reason);
            },
            Ok(values) => values,
        };
        let output_directions: Vec<i64> = match scan_attr(node, "scan_output_directions", num_out) {
            Err(reason) => {
                return Err(reason);
            },
            Ok(values) => values,
        };
        let mut axes: Vec<usize> = Vec::new();
        proof {
            assert(nats(axes@) =~= Seq::<nat>::empty());
            assert(rows.len() == shapes@.len());
        }
        while axes.len() < shapes.len()
            invariant
                axes@.len() <= shapes@.len(),
                shapes@.len() == form.num_scan,
                input_axes@.len() == shapes@.len(),
                rows == shape_rows(shapes@),
                form.body < node.subgraphs@.len(),
                outputs == node.subgraphs@[form.body as int].output_names@.len(),
                form.num_state <= outputs,
                num_out == outputs - form.num_state,
                scan_values(*node, "scan_input_axes"@, form.num_scan as nat) == Ok::<
                    Seq<i64>,
                    Seq<char>,
                >(input_axes@),
                scan_values(*node, "scan_input_directions"@, form.num_scan as nat) == Ok::<
                    Seq<i64>,
                    Seq<char>,
                >(input_directions@),
                scan_values(*node, "scan_output_axes"@, num_out as nat) == Ok::<
                    Seq<i64>,
                    Seq<char>,
                >(output_axes@),
                scan_values(*node, "scan_output_directions"@, num_out as nat) == Ok::<
                    Seq<i64>,
                    Seq<char>,
                >(output_directions@),
                positions_below(input_axes@, rows, axes@.len() as int) == Ok::<
                    Seq<nat>,
                    Seq<char>,
                >(nats(axes@)),
            decreases shapes@.len() - axes@.len(),
        {
            let at: usize = axes.len();
            let ghost before = nats(axes@);
            match normalized_axis(input_axes[at], shapes[at].len()) {
                None => {
                    let mut text: String = join3(
                        "MLX Scan: input axis ",
                        signed_text(input_axes[at]).as_str(),
                        " invalid for rank ",
                    );
                    text.append(decimal_text(shapes[at].len() as u64).as_str());
                    proof {
                        lemma_positions(input_axes@, rows, at + 1, rows.len() as int);
                    }
                    return Err(text);
                },
                Some(position) => {
                    axes.push(position);
                    proof {
                        assert(nats(axes@) =~= before.push(position as nat));
                    }
                },
            }
        }
        proof {
            lemma_positions(input_axes@, rows, 0, rows.len() as int);
            assert forall|i: int| 0 <= i < rows.len() implies #[trigger] axes@[i]
                < shapes@[i]@.len() && axes@[i] == (if input_axes@[i] < 0 {
                input_axes@[i] + shapes@[i]@.len()
            } else {
                input_axes@[i] as int
            }) by {
                assert(nats(axes@)[i] < rows[i].len());
            }
        }
        let trip: i32 = shapes[0][axes[0]];
        let mut at: usize = 0;
        while at < shapes.len()
            invariant
                at <= shapes@.len(),
                axes@.len() == shapes@.len(),
                shapes@.len() == form.num_scan,
                rows == shape_rows(shapes@),
                form.num_state <= outputs,
                outputs == node.subgraphs@[form.body as int].output_names@.len(),
                num_out == outputs - form.num_state,
                scan_values(*node, "scan_input_axes"@, form.num_scan as nat) == Ok::<
                    Seq<i64>,
                    Seq<char>,
                >(input_axes@),
                scan_values(*node, "scan_input_directions"@, form.num_scan as nat) == Ok::<
                    Seq<i64>,
                    Seq<char>,
                >(input_directions@),
                scan_values(*node, "scan_output_axes"@, num_out as nat) == Ok::<
                    Seq<i64>,
                    Seq<char>,
                >(output_axes@),
                scan_values(*node, "scan_output_directions"@, num_out as nat) == Ok::<
                    Seq<i64>,
                    Seq<char>,
                >(output_directions@),
                positions_below(input_axes@, rows, rows.len() as int) == Ok::<
                    Seq<nat>,
                    Seq<char>,
                >(nats(axes@)),
                forall|i: int|
                    0 <= i < rows.len() ==> #[trigger] axes@[i] < shapes@[i]@.len() && axes@[i] == (
                    if input_axes@[i] < 0 {
                        input_axes@[i] + shapes@[i]@.len()
                    } else {
                        input_axes@[i] as int
                    }),
                form.num_scan > 0,
                trip == rows[0][axes@[0] as int],
                forall|i: int| 0 <= i < at ==> #[trigger] rows[i][axes@[i] as int] == trip,
            decreases shapes@.len() - at,
        {
            assert(axes@[at as int] < shapes@[at as int]@.len());
            assert(rows[at as int] == shapes@[at as int]@);
            if shapes[at][axes[at]] != trip {
                proof {
                    assert(nats(axes@)[at as int] == axes@[at as int] as nat);
                    assert(rows[at as int][nats(axes@)[at as int] as int] != trip);
                    assert(nats(axes@)[0] == axes@[0] as nat);
                    assert(!trips_agree(rows, nats(axes@), trip));
                }
                return Err("MLX Scan: scan input sequence lengths differ".to_owned());
            }
            at = at + 1;
        }
        let mut collected: Vec<Vec<ArrayId>> = Vec::new();
        while collected.len() < num_out
            invariant
                collected@.len() <= num_out,
                forall|i: int| 0 <= i < collected@.len() ==> (#[trigger] collected@[i])@.len() == 0,
            decreases num_out - collected@.len(),
        {
            collected.push(Vec::new());
        }
        proof {
            assert(nats(axes@)[0] == axes@[0] as nat);
            assert forall|i: int| 0 <= i < rows.len() implies #[trigger] rows[i][nats(
                axes@,
            )[i] as int] == trip by {
                assert(rows[i][axes@[i] as int] == trip);
            }
            assert(trips_agree(rows, nats(axes@), trip));
            assert forall|i: int| 0 <= i < num_out implies id_lists(collected@)[i]
                =~= nothing_collected(num_out as nat)[i] by {
                assert(collected@[i]@.len() == 0);
            }
            assert(id_lists(collected@) =~= nothing_collected(num_out as nat));
            assert forall|i: int| 0 <= i < rows.len() implies #[trigger] nats(axes@)[i]
                < rows[i].len() by {
                assert(axes@[i] < shapes@[i]@.len());
            }
        }
        Ok(
            ScanRun {
                num_state: form.num_state,
                num_out,
                shapes,
                axes,
                input_directions,
                output_axes,
                output_directions,
                trip,
                step: 0,
                state,
                collected,
            },
        )
    }

    /// Whether there is nothing to scan.
    pub fn is_empty(&self) -> (empty: bool)
        ensures
            empty == (self.trip == 0),
    {
        self.trip == 0
    }

    /// Whether steps are left.
    pub fn has_step(&self) -> (more: bool)
        ensures
            more == (self.step < self.trip),
    {
        self.step < self.trip
    }

    /// The shape of one element of an input: its axis is left out.
    pub fn element_shape(&self, i: usize) -> (shape: Vec<i32>)
        requires
            self.wf(),
            i < self.shapes@.len(),
        ensures
            shape@ == self.setup().shapes[i as int].remove(self.setup().axes[i as int] as int),
    {
        proof {
            assert(self.setup().axes[i as int] < self.setup().shapes[i as int].len());
        }
        let mut shape: Vec<i32> = self.shapes[i].clone();
        assert(shape@ =~= self.shapes@[i as int]@);
        shape.remove(self.axes[i]);
        shape
    }

    /// The shape of an output that collected nothing, from the shape of one element.
    pub fn empty_output(&self, i: usize, template: &Vec<i32>) -> (shape: Result<Vec<i32>, String>)
        requires
            self.wf(),
            i < self.num_out,
            template@.len() < usize::MAX,
        ensures
            match axis_position(self.output_axes@[i as int] as int, (template@.len() + 1) as nat) {
                Some(axis) => shape matches Ok(shape) && shape@ == template@.insert(
                    axis as int,
                    0,
                ),
                None => shape matches Err(reason) && reason@ == output_axis_failure(
                    self.output_axes@[i as int],
                    (template@.len() + 1) as nat,
                ),
            },
    {
        let rank: usize = template.len() + 1;
        match normalized_axis(self.output_axes[i], rank) {
            None => Err(axis_failure(self.output_axes[i], rank)),
            Some(axis) => {
                let mut shape: Vec<i32> = template.clone();
                assert(shape@ =~= template@);
                shape.insert(axis, 0);
                Ok(shape)
            },
        }
    }

    /// What to do with a body that was, or was not, recognised.
    pub fn fusion(&self, recognised: bool, disabled: bool) -> (fusion: Fusion)
        requires
            self.wf(),
        ensures
            fusion == fusion_of(self.setup(), recognised, disabled),
    {
        let ghost setup = self.setup();
        if recognised && disabled {
            return Fusion::Unroll(Some(Decline::Disabled));
        }
        let mut form: bool = self.num_out == 1 && self.output_axes[0] == 0;
        let mut at: usize = 0;
        while at < self.shapes.len()
            invariant
                at <= self.shapes@.len(),
                self.wf(),
                setup == self.setup(),
                form == (setup.num_out == 1 && setup.output_axes[0] == 0 && (forall|i: int|
                    0 <= i < at ==> #[trigger] setup.input_directions[i]
                        == setup.input_directions[0]) && forall|i: int|
                    0 <= i < at ==> #[trigger] setup.axes[i] == 0),
            decreases self.shapes@.len() - at,
        {
            proof {
                assert(setup.axes[at as int] == self.axes@[at as int] as nat);
            }
            if self.input_directions[at] != self.input_directions[0] || self.axes[at] != 0 {
                proof {
                    if setup.input_directions[at as int] == setup.input_directions[0] {
                        assert(setup.axes[at as int] != 0);
                    }
                }
                form = false;
            }
            at = at + 1;
        }
        if recognised && !form {
            Fusion::Unroll(Some(Decline::NotFusable))
        } else if recognised {
            Fusion::Kernel {
                reverse_in: self.input_directions[0] == 1,
                reverse_out: self.output_directions[0] == 1,
            }
        } else if self.num_state == 2 && self.shapes.len() == 4 && self.num_out == 1 {
            Fusion::Unroll(Some(Decline::NotRecognised))
        } else {
            Fusion::Unroll(None)
        }
    }

    /// The slice of input `i` that the next step reads.
    pub fn slice(&self, i: usize) -> (bounds: SliceBounds)
        requires
            self.wf(),
            self.step < self.trip,
            i < self.shapes@.len(),
        ensures
            ({
                let setup = self.setup();
                let axis = setup.axes[i as int];
                let index = step_index(
                    setup.trip as int,
                    setup.input_directions[i as int],
                    self.step as int,
                );
                &&& bounds.axis == axis
                &&& bounds.start@ == Seq::new(
                    setup.shapes[i as int].len(),
                    |k: int|
                        if k == axis {
                            index as i32
                        } else {
                            0i32
                        },
                )
                &&& bounds.stop@ == setup.shapes[i as int].update(axis as int, (index + 1) as i32)
            }),
    {
        let ghost setup = self.setup();
        proof {
            assert(setup.axes[i as int] < setup.shapes[i as int].len());
            assert(setup.shapes[i as int] == self.shapes@[i as int]@);
        }
        let axis: usize = self.axes[i];
        let index: i32 = if self.input_directions[i] == 0 {
            self.step
        } else {
            self.trip - 1 - self.step
        };
        let mut start: Vec<i32> = Vec::new();
        while start.len() < self.shapes[i].len()
            invariant
                i < self.shapes@.len(),
                start@.len() <= self.shapes@[i as int]@.len(),
                forall|k: int|
                    0 <= k < start@.len() ==> #[trigger] start@[k] == (if k == axis {
                        index
                    } else {
                        0i32
                    }),
            decreases self.shapes@[i as int]@.len() - start@.len(),
        {
            let here: i32 = if start.len() == axis {
                index
            } else {
                0
            };
            start.push(here);
        }
        let mut stop: Vec<i32> = self.shapes[i].clone();
        assert(stop@ =~= self.shapes@[i as int]@);
        stop.set(axis, index + 1);
        proof {
            assert(start@ =~= Seq::new(
                setup.shapes[i as int].len(),
                |k: int|
                    if k == axis {
                        index as i32
                    } else {
                        0i32
                    },
            ));
        }
        SliceBounds { start, stop, axis }
    }

    /// Takes in what a step put out: the carried state first, then one array for each output.
    pub fn advance(&mut self, outputs: &Vec<ArrayId>)
        requires
            old(self).wf(),
            old(self).step < old(self).trip,
            outputs@.len() >= old(self).num_state + old(self).num_out,
        ensures
            final(self).wf(),
            final(self).setup() == old(self).setup(),
            final(self).step == old(self).step + 1,
            final(self).progress() == absorb(
                old(self).progress(),
                old(self).num_state as nat,
                old(self).num_out as nat,
                outputs@,
            ),
    {
        let ghost before = *self;
        let ghost count = before.num_state as int;
        let total: usize = outputs.len();
        let mut state: Vec<ArrayId> = Vec::new();
        while state.len() < self.num_state
            invariant
                *self == before,
                count == before.num_state,
                total == outputs@.len(),
                state@.len() <= count,
                count + before.num_out <= total,
                state@ == outputs@.take(state@.len() as int),
            decreases count - state@.len(),
        {
            let at: usize = state.len();
            state.push(outputs[at]);
            proof {
                assert(state@ =~= outputs@.take(at + 1));
            }
        }
        self.state = state;
        let mut i: usize = 0;
        while i < self.num_out
            invariant
                i <= before.num_out,
                count == before.num_state,
                total == outputs@.len(),
                count + before.num_out <= total,
                self.num_state == before.num_state,
                self.num_out == before.num_out,
                self.shapes == before.shapes,
                self.axes == before.axes,
                self.input_directions == before.input_directions,
                self.output_axes == before.output_axes,
                self.output_directions == before.output_directions,
                self.trip == before.trip,
                self.step == before.step,
                self.state@ == outputs@.take(count),
                self.collected@.len() == before.num_out,
                before.collected@.len() == before.num_out,
                forall|k: int|
                    0 <= k < i ==> (#[trigger] self.collected@[k])@ == before.collected@[k]@.push(
                        outputs@[count + k],
                    ),
                forall|k: int|
                    i <= k < before.num_out ==> (#[trigger] self.collected@[k])@
                        == before.collected@[k]@,
            decreases before.num_out - i,
        {
            let next: ArrayId = outputs[self.num_state + i];
            self.collected[i].push(next);
            i = i + 1;
        }
        self.step = self.step + 1;
        proof {
            assert(self.setup() =~= before.setup());
            assert(self.progress().collected =~= absorb(
                before.progress(),
                count as nat,
                before.num_out as nat,
                outputs@,
            ).collected);
        }
    }

    /// How output `i` is put together, from the rank of its elements: the axis to stack along, and
    /// the arrays in stacking order.
    pub fn stack(&self, i: usize, element_rank: usize) -> (plan: Result<
        (usize, Vec<ArrayId>),
        String,
    >)
        requires
            self.wf(),
            i < self.num_out,
            element_rank < usize::MAX,
        ensures
            ({
                let parts = self.progress().collected[i as int];
                let rank = (element_rank + 1) as nat;
                if parts.len() == 0 {
                    plan matches Err(reason) && reason@
                        == "MLX Scan: cannot stack an empty scan output"@
                } else {
                    match axis_position(self.output_axes@[i as int] as int, rank) {
                        None => plan matches Err(reason) && reason@ == output_axis_failure(
                            self.output_axes@[i as int],
                            rank,
                        ),
                        Some(axis) => plan matches Ok(made) && made.0 == axis && made.1@ == stacking(
                            parts,
                            self.output_directions@[i as int],
                        ),
                    }
                }
            }),
    {
        let parts: &Vec<ArrayId> = &self.collected[i];
        assert(self.progress().collected[i as int] == parts@);
        if parts.len() == 0 {
            return Err("MLX Scan: cannot stack an empty scan output".to_owned());
        }
        let rank: usize = element_rank + 1;
        match normalized_axis(self.output_axes[i], rank) {
            None => Err(axis_failure(self.output_axes[i], rank)),
            Some(axis) => {
                let mut made: Vec<ArrayId> = Vec::new();
                if self.output_directions[i] == 0 {
                    made = parts.clone();
                    assert(made@ =~= parts@);
                } else {
                    while made.len() < parts.len()
                        invariant
                            made@.len() <= parts@.len(),
                            forall|k: int|
                                0 <= k < made@.len() ==> #[trigger] made@[k] == parts@[parts@.len()
                                    - 1 - k],
                        decreases parts@.len() - made@.len(),
                    {
                        let at: usize = made.len();
                        made.push(parts[parts.len() - 1 - at]);
                    }
                    assert(made@ =~= parts@.reverse());
                }
                Ok((axis, made))
            },
        }
    }
}

/// Steps in either direction read every element once.
pub proof fn law_steps_cover(trip: int, direction: i64, index: int)
    requires
        0 <= index < trip,
    ensures
        exists|step: int| 0 <= step < trip && #[trigger] step_index(trip, direction, step) == index,
        forall|a: int, b: int|
            #[trigger] step_index(trip, direction, a) == #[trigger] step_index(trip, direction, b)
                ==> a == b,
        forall|step: int|
            0 <= step < trip ==> 0 <= #[trigger] step_index(trip, direction, step) < trip,
{
    let step = step_index(trip, direction, index);
    assert(step_index(trip, direction, step) == index);
}

/// After its steps a scan carries the state that the last step put out, and output `i` holds what
/// each step put out for it, in the order of the steps.
pub proof fn law_scan_collects(
    start: ScanProgress,
    num_state: nat,
    num_out: nat,
    steps: Seq<Seq<ArrayId>>,
)
    requires
        start.collected == nothing_collected(num_out),
        forall|t: int|
            0 <= t < steps.len() ==> (#[trigger] steps[t]).len() >= num_state + num_out,
    ensures
        absorbed(start, num_state, num_out, steps).collected == Seq::new(
            num_out,
            |i: int| Seq::new(steps.len(), |t: int| steps[t][num_state + i]),
        ),
        absorbed(start, num_state, num_out, steps).state == (if steps.len() == 0 {
            start.state
        } else {
            steps.last().take(num_state as int)
        }),
    decreases steps.len(),
{
    let now = absorbed(start, num_state, num_out, steps);
    let goal = Seq::new(
        num_out,
        |i: int| Seq::new(steps.len(), |t: int| steps[t][num_state + i]),
    );
    if steps.len() == 0 {
        assert forall|i: int| 0 <= i < num_out implies now.collected[i] =~= goal[i] by {}
        assert(now.collected =~= goal);
    } else {
        let front = steps.drop_last();
        law_scan_collects(start, num_state, num_out, front);
        let before = absorbed(start, num_state, num_out, front);
        assert forall|i: int| 0 <= i < num_out implies now.collected[i] =~= goal[i] by {
            assert(before.collected[i] == Seq::new(
                front.len(),
                |t: int| front[t][num_state + i],
            ));
            assert(now.collected[i] == before.collected[i].push(steps.last()[num_state + i]));
        }
        assert(now.collected =~= goal);
    }
}

/// Where an output runs in the direction of an input, its `j`-th part comes from the step that read
/// element `j` of that input.
pub proof fn law_directions_align(parts: Seq<ArrayId>, direction: i64, j: int)
    requires
        0 <= j < parts.len(),
    ensures
        ({
            let step = step_index(parts.len() as int, direction, j);
            &&& stacking(parts, direction)[j] == parts[step]
            &&& step_index(parts.len() as int, direction, step) == j
        }),
{
}

} // verus!
