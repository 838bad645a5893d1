//! Unrolling a `Loop` with a known number of steps.

use vstd::prelude::*;

use crate::engine::NodeDesc;
use crate::ops::scan_run::{body_index, find_body, lemma_body_found, ArrayId};

verus! {

/// The body of a `Loop`.
pub fn loop_body(node: &NodeDesc) -> (body: Result<usize, String>)
    ensures
        match body_index(node.subgraphs@, "body"@) {
            Some(index) => body matches Ok(body) && body == index && body < node.subgraphs@.len(),
            None => body matches Err(reason) && reason@ == "MLX Loop: missing body subgraph"@,
        },
        body matches Ok(found) ==> found < node.subgraphs@.len()
            && node.subgraphs@[found as int].attr_name@ == "body"@,
        body is Err ==> forall|i: int|
            0 <= i < node.subgraphs@.len() ==> (#[trigger] node.subgraphs@[i]).attr_name@
                != "body"@,
{
    proof {
        lemma_body_found(node.subgraphs@, "body"@);
    }
    match find_body(node, "body") {
        Some(index) => Ok(index),
        None => Err("MLX Loop: missing body subgraph".to_owned()),
    }
}

/// A `Loop` while it runs.
pub struct LoopRun {
    /// The number of steps to take; none if it is negative.
    pub trip: i64,
    pub step: i64,
    pub state: Vec<ArrayId>,
}

/// The carried state that a step put out, behind the condition.
pub open spec fn carried(outputs: Seq<ArrayId>, count: nat) -> Seq<ArrayId> {
    outputs.subrange(1, 1 + count as int)
}

/// The carried state after steps that put out `steps`, in that order.
pub open spec fn state_after(
    start: Seq<ArrayId>,
    steps: Seq<Seq<ArrayId>>,
) -> Seq<ArrayId> {
    if steps.len() == 0 {
        start
    } else {
        carried(steps.last(), start.len())
    }
}

/// The arrays that the body is given: the number of the step and the condition, which the caller
/// makes and names, and the carried state.
pub open spec fn body_inputs(
    counter: ArrayId,
    condition: ArrayId,
    state: Seq<ArrayId>,
) -> Seq<ArrayId> {
    seq![counter, condition] + state
}

impl LoopRun {
    pub open spec fn wf(&self) -> bool {
        0 <= self.step && (self.step == 0 || self.step <= self.trip)
    }

    /// Starts a loop: the trip count as it was read, the first condition, and the carried state.
    pub fn start(count: Option<i64>, condition: bool, state: Vec<ArrayId>) -> (run: Result<
        LoopRun,
        String,
    >)
        ensures
            match count {
                None => run matches Err(reason) && reason@ == "MLX Loop: null trip count"@,
                Some(count) => run matches Ok(run) && run.wf() && run.step == 0 && run.state@
                    == state@ && run.trip == (if condition {
                    count
                } else {
                    0
                }),
            },
    {
        match count {
            None => Err("MLX Loop: null trip count".to_owned()),
            Some(count) => {
                let trip: i64 = if condition {
                    count
                } else {
                    0
                };
                Ok(LoopRun { trip, step: 0, state })
            },
        }
    }

    /// Whether steps are left.
    pub fn has_step(&self) -> (more: bool)
        ensures
            more == (self.step < self.trip),
    {
        self.step < self.trip
    }

    /// The arrays that the body is given next.
    pub fn inputs(&self, counter: ArrayId, condition: ArrayId) -> (inputs: Vec<ArrayId>)
        ensures
            inputs@ == body_inputs(counter, condition, self.state@),
            inputs@.len() == 2 + self.state@.len(),
            inputs@[0] == counter,
            inputs@[1] == condition,
            forall|i: int| 0 <= i < self.state@.len() ==> inputs@[2 + i] == #[trigger] self.state@[i],
    {
        let mut inputs: Vec<ArrayId> = Vec::new();
        inputs.push(counter);
        inputs.push(condition);
        let mut at: usize = 0;
        while at < self.state.len()
            invariant
                at <= self.state@.len(),
                inputs@ == body_inputs(counter, condition, self.state@.take(at as int)),
            decreases self.state@.len() - at,
        {
            inputs.push(self.state[at]);
            proof {
                assert(self.state@.take(at + 1) =~= self.state@.take(at as int).push(
                    self.state@[at as int],
                ));
                assert(inputs@ =~= body_inputs(counter, condition, self.state@.take(at + 1)));
            }
            at = at + 1;
        }
        proof {
            assert(self.state@.take(self.state@.len() as int) =~= self.state@);
        }
        inputs
    }

    /// Takes in what a step put out: the condition, which is dropped, and the carried state.
    pub fn advance(&mut self, outputs: &Vec<ArrayId>)
        requires
            old(self).wf(),
            old(self).step < old(self).trip,
            outputs@.len() >= 1 + old(self).state@.len(),
        ensures
            final(self).wf(),
            final(self).trip == old(self).trip,
            final(self).step == old(self).step + 1,
            final(self).state@ == carried(outputs@, old(self).state@.len()),
            final(self).state@.len() == old(self).state@.len(),
            forall|i: int|
                0 <= i < final(self).state@.len() ==> #[trigger] final(self).state@[i] == outputs@[1
                    + i],
    {
        let count: usize = self.state.len();
        let mut state: Vec<ArrayId> = Vec::new();
        while state.len() < count
            invariant
                state@.len() <= count,
                outputs@.len() >= 1 + count,
                state@ == outputs@.subrange(1, 1 + state@.len() as int),
            decreases count - state@.len(),
        {
            let at: usize = state.len();
            state.push(outputs[at + 1]);
            proof {
                assert(state@ =~= outputs@.subrange(1, 1 + state@.len() as int));
            }
        }
        self.state = state;
        self.step = self.step + 1;
    }
}

/// A loop carries as many arrays as it started with, and after its steps those that the last step
/// put out behind the condition.
pub proof fn law_loop_carries(
    start: Seq<ArrayId>,
    steps: Seq<Seq<ArrayId>>,
    next: Seq<ArrayId>,
)
    requires
        forall|t: int| 0 <= t < steps.len() ==> (#[trigger] steps[t]).len() >= 1 + start.len(),
        next.len() >= 1 + start.len(),
    ensures
        state_after(start, steps).len() == start.len(),
        state_after(start, steps.push(next)) == carried(next, state_after(start, steps).len()),
{
    if steps.len() > 0 {
        assert(steps[steps.len() - 1].len() >= 1 + start.len());
    }
    assert(steps.push(next).last() == next);
}

} // verus!
