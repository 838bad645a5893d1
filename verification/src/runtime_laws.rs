//! What a computation does, in terms of the plan and of what is known before it starts.

use vstd::prelude::*;

use crate::ops::views::bracketed;
use crate::plan::Plan;
use crate::runtime::{
    begun, concluded, shape_key_below, Attempt, ComputeStep, DynShape, PathOutcome,
    RunFacts,
};
use crate::text::{decimal, signed_decimal};
use crate::trace::{CacheState, ComputePath};

verus! {

/// An empty attention cache starts a new generation, whatever the number of tokens, the batch and
/// the key: neither the decode nor the prefill cache keeps arrays, and both note the key.
pub proof fn law_empty_cache_keeps_no_arrays(
    before: Plan,
    facts: RunFacts,
    after: Plan,
    start: (bool, Attempt),
)
    requires
        begun(before, facts, after, start),
        facts.self_past_len == Some(0i64),
    ensures
        after.compiled.stable_cross_inputs@.len() == 0,
        after.prefill.stable_cross_inputs@.len() == 0,
        after.compiled.stable_generation_key == facts.generation_key,
        after.prefill.stable_generation_key == facts.generation_key,
{
}

/// Another key than the one that was noted starts a new generation, even if the attention cache is
/// not empty or of unknown length.
pub proof fn law_new_key_keeps_no_arrays(
    before: Plan,
    facts: RunFacts,
    after: Plan,
    start: (bool, Attempt),
)
    requires
        begun(before, facts, after, start),
        facts.generation_key != before.compiled.stable_generation_key,
    ensures
        after.compiled.stable_cross_inputs@.len() == 0,
        after.prefill.stable_cross_inputs@.len() == 0,
        after.compiled.stable_generation_key == facts.generation_key,
        after.prefill.stable_generation_key == facts.generation_key,
{
}

/// While a generation lasts the plan is left as it is.
pub proof fn law_same_generation_keeps_plan(
    before: Plan,
    facts: RunFacts,
    after: Plan,
    start: (bool, Attempt),
)
    requires
        begun(before, facts, after, start),
        facts.self_past_len != Some(0i64),
        facts.generation_key == before.compiled.stable_generation_key,
    ensures
        after == before,
{
}

/// Whether or not a generation starts, only the kept arrays and the noted key of the decode and
/// prefill caches may change.
pub proof fn law_start_keeps_the_rest(
    before: Plan,
    facts: RunFacts,
    after: Plan,
    start: (bool, Attempt),
)
    requires
        begun(before, facts, after, start),
    ensures
        after.nodes == before.nodes,
        after.general == before.general,
        after.requires_cpu_stream == before.requires_cpu_stream,
        after.dedicated_decode_stream == before.dedicated_decode_stream,
        after.native_attention_decode == before.native_attention_decode,
        after.compiled.enabled == before.compiled.enabled,
        after.compiled.valid == before.compiled.valid,
        after.compiled.dyn_inputs == before.compiled.dyn_inputs,
        after.compiled.control_flow_key == before.compiled.control_flow_key,
        after.prefill.enabled == before.prefill.enabled,
        after.prefill.valid == before.prefill.valid,
        after.prefill.dyn_inputs == before.prefill.dyn_inputs,
        after.prefill.control_flow_key == before.prefill.control_flow_key,
{
}

/// Starting the same computation again changes nothing.
pub proof fn law_start_settles(
    before: Plan,
    facts: RunFacts,
    middle: Plan,
    first: (bool, Attempt),
    after: Plan,
    second: (bool, Attempt),
)
    requires
        begun(before, facts, middle, first),
        begun(middle, facts, after, second),
    ensures
        after.compiled.stable_cross_inputs@ == middle.compiled.stable_cross_inputs@,
        after.compiled.stable_generation_key == middle.compiled.stable_generation_key,
        second == first,
{
    law_first_path(before, facts, middle, first);
    law_first_path(middle, facts, after, second);
    law_start_keeps_the_rest(before, facts, middle, first);
    law_start_keeps_the_rest(middle, facts, after, second);
}

/// A single token takes the decode path if that is on, unless native attention is used and the
/// batch is not one; several tokens take the prefill path if that is on; else the general path
/// runs if it is on, and else the nodes run one by one. The cache of a compiled path is hit if a
/// trace is cached. The stream for single tokens is used if the plan has it and there is one token.
pub proof fn law_first_path(before: Plan, facts: RunFacts, after: Plan, start: (bool, Attempt))
    requires
        begun(before, facts, after, start),
    ensures
        ({
            let single = facts.seq_len == Some(1i32);
            let several = facts.seq_len is Some && facts.seq_len->0 > 1;
            let decode = before.compiled.enabled && single && (!before.native_attention_decode
                || facts.batch_size == Some(1i64));
            let prefill = before.prefill.enabled && several;
            &&& start.0 <==> before.dedicated_decode_stream && single
            &&& start.1.path == ComputePath::Decode <==> decode
            &&& start.1.path == ComputePath::Prefill <==> prefill
            &&& start.1.path == ComputePath::General <==> before.general.enabled && !decode
                && !prefill
            &&& start.1.path == ComputePath::Eager <==> !before.general.enabled && !decode
                && !prefill
            &&& decode ==> start.1.cache == (if before.compiled.valid {
                CacheState::Hit
            } else {
                CacheState::Miss
            })
            &&& prefill ==> start.1.cache == (if before.prefill.valid {
                CacheState::Hit
            } else {
                CacheState::Miss
            })
            &&& start.1.path == ComputePath::General ==> start.1.cache == (if before.general.valid {
                CacheState::Hit
            } else {
                CacheState::Miss
            })
            &&& start.1.path == ComputePath::Eager ==> start.1.cache == CacheState::Na
        }),
{
    law_start_keeps_the_rest(before, facts, after, start);
    assert(crate::runtime::path_rank(ComputePath::Decode) == 0);
    assert(crate::runtime::path_rank(ComputePath::Prefill) == 1);
    assert(crate::runtime::path_rank(ComputePath::General) == 2);
}

/// A path that declines hands over: the decode path to the prefill path if that is open, those two
/// to the general path if it is on, and every path to the nodes one by one at last. No path is
/// tried twice.
pub proof fn law_declined_path_hands_over(
    plan: Plan,
    facts: RunFacts,
    attempt: Attempt,
    active: bool,
    inputs: Seq<DynShape>,
    step: ComputeStep,
)
    requires
        attempt.path != ComputePath::Eager,
        concluded(plan, facts, attempt, PathOutcome::Declined, active, inputs, step),
    ensures
        ({
            let prefill = attempt.path == ComputePath::Decode && plan.prefill.enabled
                && facts.seq_len is Some && facts.seq_len->0 > 1;
            let general = attempt.path != ComputePath::General && plan.general.enabled;
            &&& step is Try
            &&& step->Try_0.path == (if prefill {
                ComputePath::Prefill
            } else if general {
                ComputePath::General
            } else {
                ComputePath::Eager
            })
            &&& step->Try_0.path != attempt.path
        }),
{
    assert(crate::runtime::path_rank(ComputePath::Prefill) == 1);
    assert(crate::runtime::path_rank(ComputePath::General) == 2);
}

/// A path that ran is what is recorded, with the cache state from before the attempt. The prefill
/// path is recorded under its number of tokens, and the general path under the shapes of its
/// inputs and the branches that were taken, if anything is recorded.
pub proof fn law_ran_path_is_recorded(
    plan: Plan,
    facts: RunFacts,
    attempt: Attempt,
    active: bool,
    inputs: Seq<DynShape>,
    step: ComputeStep,
)
    requires
        concluded(plan, facts, attempt, PathOutcome::Ran, active, inputs, step),
    ensures
        step is Done,
        step->attempt == attempt,
        attempt.path == ComputePath::Decode || attempt.path == ComputePath::Eager
            ==> step->key@.len() == 0,
        attempt.path == ComputePath::Prefill && facts.seq_len is Some ==> step->key@ == "S"@
            + signed_decimal(facts.seq_len->0 as int),
        attempt.path == ComputePath::General && !active ==> step->key@.len() == 0,
        attempt.path == ComputePath::General && active ==> step->key@ == (match
            plan.general.control_flow_key {
            Some(text) => if text@.len() > 0 {
                shape_key_below(inputs, inputs.len() as int) + "|"@ + text@
            } else {
                shape_key_below(inputs, inputs.len() as int)
            },
            None => shape_key_below(inputs, inputs.len() as int),
        }),
{
}

/// The key of the general path lists position, element type and shape of every input that could be
/// read, in order and with a semicolon between two.
pub proof fn law_shape_key_lists_inputs(inputs: Seq<DynShape>, next: DynShape)
    ensures
        ({
            let before = shape_key_below(inputs, inputs.len() as int);
            let key = shape_key_below(inputs.push(next), (inputs.len() + 1) as int);
            match next.read {
                None => key == before,
                Some(read) => key == (if before.len() == 0 {
                    before
                } else {
                    before + ";"@
                }) + (decimal(next.index as nat) + ":"@ + decimal(read.0 as nat) + ":"@ + bracketed(
                    read.1@,
                )),
            }
        }),
        shape_key_below(Seq::empty(), 0).len() == 0,
{
    let longer = inputs.push(next);
    lemma_key_prefix(inputs, next, inputs.len() as int);
    assert(longer[inputs.len() as int] == next);
}

proof fn lemma_key_prefix(inputs: Seq<DynShape>, next: DynShape, k: int)
    requires
        0 <= k <= inputs.len(),
    ensures
        shape_key_below(inputs.push(next), k) == shape_key_below(inputs, k),
    decreases k,
{
    if k > 0 {
        lemma_key_prefix(inputs, next, k - 1);
        assert(inputs.push(next)[k - 1] == inputs[k - 1]);
    }
}

/// A failure ends the computation; its text tells the path, and the message where it can be passed
/// on.
pub proof fn law_failure_ends_the_computation(
    plan: Plan,
    facts: RunFacts,
    attempt: Attempt,
    message: String,
    active: bool,
    inputs: Seq<DynShape>,
    step: ComputeStep,
)
    requires
        concluded(plan, facts, attempt, PathOutcome::Failed(message), active, inputs, step),
        !message@.contains('\0'),
    ensures
        step is Fail,
        attempt.path == ComputePath::Eager ==> step->Fail_0@ == "MLX subgraph failed: "@
            + message@,
        attempt.path == ComputePath::Decode ==> step->Fail_0@ == "MLX compiled decode failed: "@
            + message@,
        attempt.path == ComputePath::Prefill ==> step->Fail_0@ == "MLX compiled prefill failed: "@
            + message@,
        attempt.path == ComputePath::General ==> step->Fail_0@ == "MLX compiled general failed: "@
            + message@,
{
    reveal_strlit("MLX subgraph failed: ");
    reveal_strlit("MLX compiled ");
    reveal_strlit(" failed: ");
    reveal_strlit("decode");
    reveal_strlit("prefill");
    reveal_strlit("general");
    reveal_strlit("MLX compiled decode failed: ");
    reveal_strlit("MLX compiled prefill failed: ");
    reveal_strlit("MLX compiled general failed: ");
    let opening = if attempt.path == ComputePath::Eager {
        "MLX subgraph failed: "@
    } else {
        "MLX compiled "@ + attempt.path.tag() + " failed: "@
    };
    let whole = opening + message@;
    assert forall|i: int| 0 <= i < whole.len() implies whole[i] != '\0' by {
        if i >= opening.len() {
            assert(message@[i - opening.len()] == whole[i]);
            assert(message@.contains(whole[i]));
        }
    }
    assert(!whole.contains('\0'));
    assert(attempt.path == ComputePath::Decode ==> opening =~= "MLX compiled decode failed: "@);
    assert(attempt.path == ComputePath::Prefill ==> opening =~= "MLX compiled prefill failed: "@);
    assert(attempt.path == ComputePath::General ==> opening =~= "MLX compiled general failed: "@);
}

} // verus!
