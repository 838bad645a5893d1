//! The course of a `Scan`: what the caller does next, after each thing it has done.

use vstd::prelude::*;

use crate::ops::scan_run::{
    absorb, fusion_of, output_axis_failure, stacking, step_index, ArrayId, Decline, Fusion, ScanRun,
    ScanSetup, SliceBounds,
};
use crate::ops::views::axis_position;

verus! {

/// What the caller does next.
pub enum ScanAction {
    /// Run the body once on the state and on zeros of these shapes, and report the shapes of its
    /// outputs. Nothing of that run is kept.
    Template(Vec<Vec<i32>>),
    /// Try the fused kernel.
    Kernel { reverse_in: bool, reverse_out: bool },
    /// Cut these slices, drop their axes, run the body on the state and on them, and report its
    /// outputs.
    Step(Vec<SliceBounds>),
    /// Bind the state, zeros of these shapes, and end.
    Empty(Vec<Vec<i32>>),
    /// Bind the state, stack the outputs along their axes, bind them, and end.
    Stack(Vec<(usize, Vec<ArrayId>)>),
}

/// The bounds of one slice.
#[verifier::ext_equal]
pub ghost struct SliceModel {
    pub start: Seq<i32>,
    pub stop: Seq<i32>,
    pub axis: nat,
}

#[verifier::ext_equal]
pub ghost enum ActionModel {
    Template(Seq<Seq<i32>>),
    Kernel { reverse_in: bool, reverse_out: bool },
    Step(Seq<SliceModel>),
    Empty(Seq<Seq<i32>>),
    Stack(Seq<(nat, Seq<ArrayId>)>),
}

pub open spec fn slice_models(list: Seq<SliceBounds>) -> Seq<SliceModel> {
    Seq::new(
        list.len(),
        |i: int|
            SliceModel {
                start: list[i].start@,
                stop: list[i].stop@,
                axis: list[i].axis as nat,
            },
    )
}

pub open spec fn stack_models(list: Seq<(usize, Vec<ArrayId>)>) -> Seq<(nat, Seq<ArrayId>)> {
    Seq::new(list.len(), |i: int| (list[i].0 as nat, list[i].1@))
}

pub open spec fn shape_models(list: Seq<Vec<i32>>) -> Seq<Seq<i32>> {
    Seq::new(list.len(), |i: int| list[i]@)
}

pub open spec fn action_model(action: ScanAction) -> ActionModel {
    match action {
        ScanAction::Template(shapes) => ActionModel::Template(shape_models(shapes@)),
        ScanAction::Kernel { reverse_in, reverse_out } => ActionModel::Kernel {
            reverse_in,
            reverse_out,
        },
        ScanAction::Step(slices) => ActionModel::Step(slice_models(slices@)),
        ScanAction::Empty(shapes) => ActionModel::Empty(shape_models(shapes@)),
        ScanAction::Stack(list) => ActionModel::Stack(stack_models(list@)),
    }
}

pub open spec fn outcome_model(outcome: Result<ScanAction, String>) -> Result<
    ActionModel,
    Seq<char>,
> {
    match outcome {
        Ok(action) => Ok(action_model(action)),
        Err(reason) => Err(reason@),
    }
}

/// The slice of input `i` that a step reads: one element along its axis, everything else whole.
pub open spec fn slice_of(setup: ScanSetup, step: int, i: int) -> SliceModel {
    let axis = setup.axes[i];
    let index = step_index(setup.trip as int, setup.input_directions[i], step);
    SliceModel {
        start: Seq::new(
            setup.shapes[i].len(),
            |k: int|
                if k == axis {
                    index as i32
                } else {
                    0i32
                },
        ),
        stop: setup.shapes[i].update(axis as int, (index + 1) as i32),
        axis,
    }
}

pub open spec fn slices_of(setup: ScanSetup, step: int) -> Seq<SliceModel> {
    Seq::new(setup.shapes.len(), |i: int| slice_of(setup, step, i))
}

/// The shapes of single elements of the inputs.
pub open spec fn element_shapes(setup: ScanSetup) -> Seq<Seq<i32>> {
    Seq::new(
        setup.shapes.len(),
        |i: int| setup.shapes[i].remove(setup.axes[i] as int),
    )
}

/// How output `i` is put together.
pub open spec fn stack_of(
    setup: ScanSetup,
    collected: Seq<Seq<ArrayId>>,
    ranks: Seq<usize>,
    i: int,
) -> Result<(nat, Seq<ArrayId>), Seq<char>> {
    let rank = (ranks[i] + 1) as nat;
    if collected[i].len() == 0 {
        Err("MLX Scan: cannot stack an empty scan output"@)
    } else {
        match axis_position(setup.output_axes[i] as int, rank) {
            None => Err(output_axis_failure(setup.output_axes[i], rank)),
            Some(axis) => Ok((axis, stacking(collected[i], setup.output_directions[i]))),
        }
    }
}

/// How the first `k` outputs are put together.
pub open spec fn stacks_below(
    setup: ScanSetup,
    collected: Seq<Seq<ArrayId>>,
    ranks: Seq<usize>,
    k: int,
) -> Result<Seq<(nat, Seq<ArrayId>)>, Seq<char>>
    decreases k,
{
    if k <= 0 {
        Ok(Seq::empty())
    } else {
        match stacks_below(setup, collected, ranks, k - 1) {
            Err(reason) => Err(reason),
            Ok(before) => match stack_of(setup, collected, ranks, k - 1) {
                Err(reason) => Err(reason),
                Ok(plan) => Ok(before.push(plan)),
            },
        }
    }
}

/// The shape of an output that collected nothing.
pub open spec fn empty_of(setup: ScanSetup, templates: Seq<Seq<i32>>, i: int) -> Result<
    Seq<i32>,
    Seq<char>,
> {
    let template = templates[setup.num_state + i];
    let rank = (template.len() + 1) as nat;
    match axis_position(setup.output_axes[i] as int, rank) {
        None => Err(output_axis_failure(setup.output_axes[i], rank)),
        Some(axis) => Ok(template.insert(axis as int, 0)),
    }
}

pub open spec fn empties_below(setup: ScanSetup, templates: Seq<Seq<i32>>, k: int) -> Result<
    Seq<Seq<i32>>,
    Seq<char>,
>
    decreases k,
{
    if k <= 0 {
        Ok(Seq::empty())
    } else {
        match empties_below(setup, templates, k - 1) {
            Err(reason) => Err(reason),
            Ok(before) => match empty_of(setup, templates, k - 1) {
                Err(reason) => Err(reason),
                Ok(shape) => Ok(before.push(shape)),
            },
        }
    }
}

proof fn lemma_stacks_fail(
    setup: ScanSetup,
    collected: Seq<Seq<ArrayId>>,
    ranks: Seq<usize>,
    k: int,
    n: int,
)
    requires
        0 <= k <= n,
        stacks_below(setup, collected, ranks, k) is Err,
    ensures
        stacks_below(setup, collected, ranks, n) == stacks_below(setup, collected, ranks, k),
    decreases n,
{
    if k < n {
        lemma_stacks_fail(setup, collected, ranks, k, n - 1);
    }
}

proof fn lemma_empties_fail(setup: ScanSetup, templates: Seq<Seq<i32>>, k: int, n: int)
    requires
        0 <= k <= n,
        empties_below(setup, templates, k) is Err,
    ensures
        empties_below(setup, templates, n) == empties_below(setup, templates, k),
    decreases n,
{
    if k < n {
        lemma_empties_fail(setup, templates, k, n - 1);
    }
}

/// What comes after `step` steps: another step, or the end.
pub open spec fn action_after(
    setup: ScanSetup,
    step: int,
    collected: Seq<Seq<ArrayId>>,
    ranks: Seq<usize>,
) -> Result<ActionModel, Seq<char>> {
    if step < setup.trip {
        Ok(ActionModel::Step(slices_of(setup, step)))
    } else {
        match stacks_below(setup, collected, ranks, setup.num_out as int) {
            Err(reason) => Err(reason),
            Ok(list) => Ok(ActionModel::Stack(list)),
        }
    }
}

/// What comes first. An empty scan puts out empty arrays; their element shapes come from one run of
/// the body that is not kept.
pub open spec fn first_action(
    setup: ScanSetup,
    collected: Seq<Seq<ArrayId>>,
    ranks: Seq<usize>,
    recognised: bool,
    disabled: bool,
) -> Result<ActionModel, Seq<char>> {
    if setup.trip == 0 {
        if setup.num_out == 0 {
            Ok(ActionModel::Empty(Seq::empty()))
        } else {
            Ok(ActionModel::Template(element_shapes(setup)))
        }
    } else {
        match fusion_of(setup, recognised, disabled) {
            Fusion::Kernel { reverse_in, reverse_out } => Ok(
                ActionModel::Kernel { reverse_in, reverse_out },
            ),
            Fusion::Unroll(_) => action_after(setup, 0, collected, ranks),
        }
    }
}

/// Why the fused kernel is not used, as far as it is known at the start.
pub open spec fn first_decline(
    setup: ScanSetup,
    recognised: bool,
    disabled: bool,
) -> Option<Decline> {
    if setup.trip == 0 {
        None
    } else {
        match fusion_of(setup, recognised, disabled) {
            Fusion::Kernel { .. } => None,
            Fusion::Unroll(reason) => reason,
        }
    }
}

/// A `Scan` on its way.
pub struct ScanMachine {
    pub run: ScanRun,
    /// The ranks of the elements of the outputs, once a step has put them out.
    pub ranks: Vec<usize>,
    /// Why the fused kernel is not used.
    pub decline: Option<Decline>,
}

impl ScanMachine {
    pub open spec fn wf(&self) -> bool {
        &&& self.run.wf()
        &&& self.ranks@.len() == self.run.num_out
        &&& forall|i: int| 0 <= i < self.ranks@.len() ==> #[trigger] self.ranks@[i] < usize::MAX
    }

    pub fn new(run: ScanRun) -> (machine: ScanMachine)
        requires
            run.wf(),
        ensures
            machine.wf(),
            machine.run == run,
            machine.decline is None,
            forall|i: int| 0 <= i < machine.ranks@.len() ==> #[trigger] machine.ranks@[i] == 0,
    {
        let mut ranks: Vec<usize> = Vec::new();
        while ranks.len() < run.num_out
            invariant
                ranks@.len() <= run.num_out,
                forall|i: int| 0 <= i < ranks@.len() ==> #[trigger] ranks@[i] == 0,
            decreases run.num_out - ranks@.len(),
        {
            ranks.push(0);
        }
        ScanMachine { run, ranks, decline: None }
    }

    fn next_step(&self) -> (action: ScanAction)
        requires
            self.wf(),
            self.run.step < self.run.trip,
        ensures
            action_model(action) == ActionModel::Step(
                slices_of(self.run.setup(), self.run.step as int),
            ),
    {
        let ghost setup = self.run.setup();
        let mut slices: Vec<SliceBounds> = Vec::new();
        while slices.len() < self.run.shapes.len()
            invariant
                self.wf(),
                self.run.step < self.run.trip,
                setup == self.run.setup(),
                slices@.len() <= self.run.shapes@.len(),
                forall|i: int|
                    0 <= i < slices@.len() ==> #[trigger] slice_models(slices@)[i] == slice_of(
                        setup,
                        self.run.step as int,
                        i,
                    ),
            decreases self.run.shapes@.len() - slices@.len(),
        {
            let at: usize = slices.len();
            let ghost before = slices@;
            let bounds: SliceBounds = self.run.slice(at);
            slices.push(bounds);
            proof {
                assert forall|i: int| 0 <= i < slices@.len() implies #[trigger] slice_models(
                    slices@,
                )[i] == slice_of(setup, self.run.step as int, i) by {
                    if i < at {
                        assert(slice_models(before)[i] == slice_of(setup, self.run.step as int, i));
                    } else {
                        assert(slice_models(slices@)[i] =~= slice_of(
                            setup,
                            self.run.step as int,
                            i,
                        ));
                    }
                }
            }
        }
        proof {
            assert(slice_models(slices@) =~= slices_of(setup, self.run.step as int));
        }
        ScanAction::Step(slices)
    }

    fn finish(&self) -> (outcome: Result<ScanAction, String>)
        requires
            self.wf(),
        ensures
            outcome_model(outcome) == (match stacks_below(
                self.run.setup(),
                self.run.progress().collected,
                self.ranks@,
                self.run.num_out as int,
            ) {
                Err(reason) => Err::<ActionModel, Seq<char>>(reason),
                Ok(list) => Ok(ActionModel::Stack(list)),
            }),
    {
        let ghost setup = self.run.setup();
        let ghost collected = self.run.progress().collected;
        let mut list: Vec<(usize, Vec<ArrayId>)> = Vec::new();
        proof {
            assert(stack_models(list@) =~= Seq::<(nat, Seq<ArrayId>)>::empty());
        }
        while list.len() < self.run.num_out
            invariant
                self.wf(),
                setup == self.run.setup(),
                collected == self.run.progress().collected,
                list@.len() <= self.run.num_out,
                stacks_below(setup, collected, self.ranks@, list@.len() as int) == Ok::<
                    Seq<(nat, Seq<ArrayId>)>,
                    Seq<char>,
                >(stack_models(list@)),
            decreases self.run.num_out - list@.len(),
        {
            let at: usize = list.len();
            let ghost before = stack_models(list@);
            match self.run.stack(at, self.ranks[at]) {
                Err(reason) => {
                    proof {
                        lemma_stacks_fail(
                            setup,
                            collected,
                            self.ranks@,
                            at + 1,
                            self.run.num_out as int,
                        );
                    }
                    return Err(reason);
                },
                Ok(plan) => {
                    list.push(plan);
                    proof {
                        assert(stack_models(list@) =~= before.push((plan.0 as nat, plan.1@)));
                    }
                },
            }
        }
        Ok(ScanAction::Stack(list))
    }

    fn proceed(&self) -> (outcome: Result<ScanAction, String>)
        requires
            self.wf(),
        ensures
            outcome_model(outcome) == action_after(
                self.run.setup(),
                self.run.step as int,
                self.run.progress().collected,
                self.ranks@,
            ),
    {
        if self.run.step < self.run.trip {
            Ok(self.next_step())
        } else {
            self.finish()
        }
    }

    fn template(&self) -> (action: ScanAction)
        requires
            self.wf(),
        ensures
            action_model(action) == ActionModel::Template(element_shapes(self.run.setup())),
    {
        let ghost setup = self.run.setup();
        let mut shapes: Vec<Vec<i32>> = Vec::new();
        while shapes.len() < self.run.shapes.len()
            invariant
                self.wf(),
                setup == self.run.setup(),
                shapes@.len() <= self.run.shapes@.len(),
                forall|i: int|
                    0 <= i < shapes@.len() ==> (#[trigger] shapes@[i])@ == setup.shapes[i].remove(
                        setup.axes[i] as int,
                    ),
            decreases self.run.shapes@.len() - shapes@.len(),
        {
            let shape: Vec<i32> = self.run.element_shape(shapes.len());
            shapes.push(shape);
        }
        proof {
            assert(shape_models(shapes@) =~= element_shapes(setup));
        }
        ScanAction::Template(shapes)
    }

    /// Starts: `recognised` says that the body is one that the fused kernel computes, `disabled`
    /// that the kernel is switched off.
    pub fn begin(&mut self, recognised: bool, disabled: bool) -> (outcome: Result<
        ScanAction,
        String,
    >)
        requires
            old(self).wf(),
            old(self).run.step == 0,
            old(self).decline is None,
        ensures
            final(self).wf(),
            final(self).run == old(self).run,
            final(self).ranks == old(self).ranks,
            final(self).decline == first_decline(old(self).run.setup(), recognised, disabled),
            outcome_model(outcome) == first_action(
                old(self).run.setup(),
                old(self).run.progress().collected,
                old(self).ranks@,
                recognised,
                disabled,
            ),
    {
        if self.run.is_empty() {
            if self.run.num_out == 0 {
                let none: Vec<Vec<i32>> = Vec::new();
                proof {
                    assert(shape_models(none@) =~= Seq::<Seq<i32>>::empty());
                }
                return Ok(ScanAction::Empty(none));
            }
            return Ok(self.template());
        }
        match self.run.fusion(recognised, disabled) {
            Fusion::Kernel { reverse_in, reverse_out } => Ok(
                ScanAction::Kernel { reverse_in, reverse_out },
            ),
            Fusion::Unroll(reason) => {
                self.decline = reason;
                self.proceed()
            },
        }
    }

    /// Goes on after the fused kernel could not be used.
    pub fn kernel_declined(&mut self) -> (outcome: Result<ScanAction, String>)
        requires
            old(self).wf(),
        ensures
            final(self).wf(),
            final(self).run == old(self).run,
            final(self).ranks == old(self).ranks,
            final(self).decline == Some(Decline::Unsupported),
            outcome_model(outcome) == action_after(
                old(self).run.setup(),
                old(self).run.step as int,
                old(self).run.progress().collected,
                old(self).ranks@,
            ),
    {
        self.decline = Some(Decline::Unsupported);
        self.proceed()
    }

    /// Goes on after a step: `outputs` are the arrays that the body put out, `ranks` the ranks of
    /// those that are collected. The ranks of the first step count.
    pub fn step_done(&mut self, outputs: &Vec<ArrayId>, ranks: Vec<usize>) -> (outcome: Result<
        ScanAction,
        String,
    >)
        requires
            old(self).wf(),
            old(self).run.step < old(self).run.trip,
            outputs@.len() >= old(self).run.num_state + old(self).run.num_out,
            ranks@.len() == old(self).run.num_out,
            forall|i: int| 0 <= i < ranks@.len() ==> #[trigger] ranks@[i] < usize::MAX,
        ensures
            final(self).wf(),
            final(self).run.setup() == old(self).run.setup(),
            final(self).run.step == old(self).run.step + 1,
            final(self).run.progress() == absorb(
                old(self).run.progress(),
                old(self).run.num_state as nat,
                old(self).run.num_out as nat,
                outputs@,
            ),
            final(self).ranks@ == (if old(self).run.step == 0 {
                ranks@
            } else {
                old(self).ranks@
            }),
            final(self).decline == old(self).decline,
            outcome_model(outcome) == action_after(
                old(self).run.setup(),
                old(self).run.step + 1,
                final(self).run.progress().collected,
                final(self).ranks@,
            ),
    {
        if self.run.step == 0 {
            self.ranks = ranks;
        }
        self.run.advance(outputs);
        proof {
            assert(self.run.setup().num_out == old(self).run.setup().num_out);
        }
        self.proceed()
    }

    /// Ends an empty scan: `templates` are the shapes that the body's outputs had.
    pub fn templates_done(&self, templates: &Vec<Vec<i32>>) -> (outcome: Result<ScanAction, String>)
        requires
            self.wf(),
            templates@.len() >= self.run.num_state + self.run.num_out,
            forall|i: int|
                0 <= i < templates@.len() ==> (#[trigger] templates@[i])@.len() < usize::MAX,
        ensures
            outcome_model(outcome) == (match empties_below(
                self.run.setup(),
                shape_models(templates@),
                self.run.num_out as int,
            ) {
                Err(reason) => Err::<ActionModel, Seq<char>>(reason),
                Ok(shapes) => Ok(ActionModel::Empty(shapes)),
            }),
    {
        let ghost setup = self.run.setup();
        let ghost all = shape_models(templates@);
        let total: usize = templates.len();
        let mut shapes: Vec<Vec<i32>> = Vec::new();
        proof {
            assert(shape_models(shapes@) =~= Seq::<Seq<i32>>::empty());
        }
        while shapes.len() < self.run.num_out
            invariant
                self.wf(),
                setup == self.run.setup(),
                all == shape_models(templates@),
                total == templates@.len(),
                total >= self.run.num_state + self.run.num_out,
                forall|i: int|
                    0 <= i < templates@.len() ==> (#[trigger] templates@[i])@.len() < usize::MAX,
                shapes@.len() <= self.run.num_out,
                empties_below(setup, all, shapes@.len() as int) == Ok::<Seq<Seq<i32>>, Seq<char>>(
                    shape_models(shapes@),
                ),
            decreases self.run.num_out - shapes@.len(),
        {
            let at: usize = shapes.len();
            let ghost before = shape_models(shapes@);
            let place: usize = self.run.num_state + at;
            assert(templates@[place as int]@.len() < usize::MAX);
            match self.run.empty_output(at, &templates[place]) {
                Err(reason) => {
                    proof {
                        lemma_empties_fail(setup, all, at + 1, self.run.num_out as int);
                    }
                    return Err(reason);
                },
                Ok(shape) => {
                    shapes.push(shape);
                    proof {
                        assert(shape_models(shapes@) =~= before.push(shape@));
                    }
                },
            }
        }
        Ok(ScanAction::Empty(shapes))
    }
}

} // verus!
