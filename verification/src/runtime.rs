//! One computation of a fused subgraph: who may run it, and which paths are tried in which order.

use vstd::prelude::*;
use vstd::string::StringExecFns;

use crate::ops::views::{bracketed, list_text};
use crate::plan::{CompiledSlot, Plan, Slot};
use crate::status::{report_text, reported};
use crate::text::{decimal, decimal_text, join2, join3, signed_decimal, signed_text};
use crate::trace::{CacheState, ComputePath};

verus! {

/// The thread that runs a subgraph: a number that no other thread has, and what it is called.
pub struct RunOwner {
    pub id: u64,
    pub label: String,
}

/// Keeps a subgraph to the thread that ran it first, since its evaluator is bound to a thread.
pub struct RunGate {
    pub owner: Option<RunOwner>,
}

/// What a foreign thread is told.
pub open spec fn foreign_thread(owner: Seq<char>, current: Seq<char>) -> Seq<char> {
    "onnxruntime-mlx: this InferenceSession first ran on thread "@ + owner
        + " but Run() was called from "@ + current
        + ". MLX eval is thread-affine — use one InferenceSession per thread for concurrent inference."@
}

/// A thread may run where nobody has run before it, or where it has.
pub open spec fn admits(owner: Option<u64>, id: u64) -> bool {
    owner is None || owner == Some(id)
}

/// The owner after a thread has asked to run.
pub open spec fn next_owner(owner: Option<u64>, id: u64) -> Option<u64> {
    if owner is None {
        Some(id)
    } else {
        owner
    }
}

/// The owner after these threads have asked to run, one after the other.
pub open spec fn owner_after(ids: Seq<u64>) -> Option<u64>
    decreases ids.len(),
{
    if ids.len() == 0 {
        None
    } else {
        next_owner(owner_after(ids.drop_last()), ids.last())
    }
}

/// Whoever asks first is let in ever after, and nobody else is.
pub proof fn law_first_thread_owns(ids: Seq<u64>, i: int)
    requires
        0 <= i < ids.len(),
    ensures
        admits(owner_after(ids.take(i)), ids[i]) <==> ids[i] == ids[0],
{
    if i > 0 {
        lemma_owner_is_first(ids.take(i));
    }
}

proof fn lemma_owner_is_first(ids: Seq<u64>)
    requires
        ids.len() > 0,
    ensures
        owner_after(ids) == Some(ids[0]),
    decreases ids.len(),
{
    if ids.len() > 1 {
        lemma_owner_is_first(ids.drop_last());
    } else {
        assert(owner_after(ids.drop_last()) is None);
    }
}

impl RunGate {
    /// The owning thread.
    pub open spec fn owner_id(&self) -> Option<u64> {
        match self.owner {
            Some(owner) => Some(owner.id),
            None => None,
        }
    }

    pub fn new() -> (gate: Self)
        ensures
            gate.owner is None,
    {
        RunGate { owner: None }
    }

    /// Lets the owner in; the first to come becomes the owner.
    pub fn enter(&mut self, id: u64, label: &str) -> (entered: Result<(), String>)
        ensures
            entered is Ok <==> admits(old(self).owner_id(), id),
            final(self).owner_id() == next_owner(old(self).owner_id(), id),
            match old(self).owner {
                None => final(self).owner->0.label@ == label@,
                Some(owner) => {
                    &&& *final(self) == *old(self)
                    &&& entered matches Err(text) ==> text@ == foreign_thread(
                        owner.label@,
                        label@,
                    )
                },
            },
    {
        let mut refusal: Option<String> = None;
        match &self.owner {
            None => {},
            Some(owner) => {
                if owner.id == id {
                    return Ok(());
                }
                let mut text: String = join3(
                    "onnxruntime-mlx: this InferenceSession first ran on thread ",
                    owner.label.as_str(),
                    " but Run() was called from ",
                );
                text.append(label);
                text.append(
                    ". MLX eval is thread-affine — use one InferenceSession per thread for concurrent inference.",
                );
                refusal = Some(text);
            },
        }
        match refusal {
            Some(text) => Err(text),
            None => {
                self.owner = Some(RunOwner { id, label: label.to_owned() });
                Ok(())
            },
        }
    }
}

/// Whether a computation gets the stream that is kept for single tokens.
pub fn use_dedicated_decode_stream(enabled: bool, seq_len: Option<i32>) -> (dedicated: bool)
    ensures
        dedicated == (enabled && seq_len == Some(1i32)),
{
    match seq_len {
        Some(length) => enabled && length == 1,
        None => false,
    }
}

/// The stream of a plan: the CPU's where an element type needs it.
pub fn plan_stream(plan: &Plan, gpu: usize, cpu: usize) -> (stream: usize)
    ensures
        stream == (if plan.requires_cpu_stream {
            cpu
        } else {
            gpu
        }),
{
    if plan.requires_cpu_stream {
        cpu
    } else {
        gpu
    }
}

/// The arrays that were kept for a generation are gone, and the next generation is noted.
pub open spec fn slot_reset(
    before: CompiledSlot,
    after: CompiledSlot,
    key: Option<usize>,
) -> bool {
    &&& after.stable_cross_inputs@.len() == 0
    &&& after.stable_generation_key == key
    &&& after.enabled == before.enabled
    &&& after.valid == before.valid
    &&& after.control_flow_specialization_enabled == before.control_flow_specialization_enabled
    &&& after.control_flow_key == before.control_flow_key
    &&& after.dyn_inputs == before.dyn_inputs
}

/// The decode and prefill caches are reset, and nothing else.
pub open spec fn caches_reset(before: Plan, after: Plan, key: Option<usize>) -> bool {
    &&& slot_reset(before.slot(Slot::Decode), after.slot(Slot::Decode), key)
    &&& slot_reset(before.slot(Slot::Prefill), after.slot(Slot::Prefill), key)
    &&& after.general == before.general
    &&& after.nodes == before.nodes
    &&& after.requires_cpu_stream == before.requires_cpu_stream
    &&& after.dedicated_decode_stream == before.dedicated_decode_stream
    &&& after.native_attention_decode == before.native_attention_decode
}

/// Drops what was kept for a generation.
pub fn reset_stable_cross_caches(plan: &mut Plan, generation_key: Option<usize>)
    ensures
        caches_reset(*old(plan), *final(plan), generation_key),
{
    plan.compiled.stable_cross_inputs = Vec::new();
    plan.compiled.stable_generation_key = generation_key;
    plan.prefill.stable_cross_inputs = Vec::new();
    plan.prefill.stable_generation_key = generation_key;
}

/// How the cache stood before a path was tried.
pub open spec fn cache_before(valid: bool) -> CacheState {
    if valid {
        CacheState::Hit
    } else {
        CacheState::Miss
    }
}

/// How the cache stood before a path was tried.
pub fn cache_state(pre_valid: bool) -> (state: CacheState)
    ensures
        state == cache_before(pre_valid),
{
    if pre_valid {
        CacheState::Hit
    } else {
        CacheState::Miss
    }
}

/// The element type and the shape of an input whose shape keys the general path, where it could be
/// read.
pub struct DynShape {
    pub index: usize,
    pub read: Option<(u32, Vec<i64>)>,
}

/// The key of one input.
pub open spec fn shape_part(index: usize, dtype: u32, shape: Seq<i64>) -> Seq<char> {
    decimal(index as nat) + ":"@ + decimal(dtype as nat) + ":"@ + bracketed(shape)
}

/// The key of the first `k` inputs; those that could not be read are left out.
pub open spec fn shape_key_below(inputs: Seq<DynShape>, k: int) -> Seq<char>
    decreases k,
{
    if k <= 0 {
        Seq::empty()
    } else {
        let before = shape_key_below(inputs, k - 1);
        match inputs[k - 1].read {
            None => before,
            Some(read) => (if before.len() == 0 {
                before
            } else {
                before + ";"@
            }) + shape_part(inputs[k - 1].index, read.0, read.1@),
        }
    }
}

/// Writes the key of the inputs.
pub fn compute_shape_key(inputs: &Vec<DynShape>) -> (key: String)
    ensures
        key@ == shape_key_below(inputs@, inputs@.len() as int),
{
    let mut key: String = String::new();
    let mut at: usize = 0;
    while at < inputs.len()
        invariant
            at <= inputs@.len(),
            key@ == shape_key_below(inputs@, at as int),
        decreases inputs@.len() - at,
    {
        match &inputs[at].read {
            None => {},
            Some(read) => {
                if !key.as_str().is_empty() {
                    key.append(";");
                }
                let mut part: String = join3(
                    decimal_text(inputs[at].index as u64).as_str(),
                    ":",
                    decimal_text(read.0 as u64).as_str(),
                );
                part.append(":");
                part.append(list_text(&read.1).as_str());
                key.append(part.as_str());
            },
        }
        at = at + 1;
    }
    key
}

/// The key of the general path: the shapes, and the branches that were taken if there are any.
pub open spec fn general_key(shapes: Seq<char>, control: Option<Seq<char>>) -> Seq<char> {
    match control {
        Some(text) => if text.len() > 0 {
            shapes + "|"@ + text
        } else {
            shapes
        },
        None => shapes,
    }
}

/// What is known of a computation before it starts.
pub struct RunFacts {
    /// The number of tokens, where the inputs tell it.
    pub seq_len: Option<i32>,
    /// What tells one generation from the next.
    pub generation_key: Option<usize>,
    /// The length of the attention cache.
    pub self_past_len: Option<i64>,
    pub batch_size: Option<i64>,
}

/// The computation starts a new generation.
pub open spec fn new_generation(plan: Plan, facts: RunFacts) -> bool {
    facts.self_past_len == Some(0i64) || facts.generation_key != plan.compiled.stable_generation_key
}

/// The path may be tried.
pub open spec fn path_open(plan: Plan, facts: RunFacts, path: ComputePath) -> bool {
    match path {
        ComputePath::Decode => plan.compiled.enabled && facts.seq_len == Some(1i32) && (
        !plan.native_attention_decode || facts.batch_size == Some(1i64)),
        ComputePath::Prefill => plan.prefill.enabled && (facts.seq_len matches Some(length)
            && length > 1),
        ComputePath::General => plan.general.enabled,
        ComputePath::Eager => true,
    }
}

/// The place of a path in the order in which they are tried.
pub open spec fn path_rank(path: ComputePath) -> int {
    match path {
        ComputePath::Decode => 0,
        ComputePath::Prefill => 1,
        ComputePath::General => 2,
        ComputePath::Eager => 3,
    }
}

/// `path` is the first open path from `rank` on.
pub open spec fn is_first_open(plan: Plan, facts: RunFacts, rank: int, path: ComputePath) -> bool {
    &&& rank <= path_rank(path)
    &&& path_open(plan, facts, path)
    &&& forall|other: ComputePath|
        rank <= #[trigger] path_rank(other) < path_rank(path) ==> !path_open(plan, facts, other)
}

/// How the cache of a path stands.
pub open spec fn cache_of(plan: Plan, path: ComputePath) -> CacheState {
    match path {
        ComputePath::Decode => cache_before(plan.compiled.valid),
        ComputePath::Prefill => cache_before(plan.prefill.valid),
        ComputePath::General => cache_before(plan.general.valid),
        ComputePath::Eager => CacheState::Na,
    }
}

/// A path that is being tried, and how its cache stood before.
#[derive(Clone, Copy, Debug, PartialEq, Eq, Structural)]
pub struct Attempt {
    pub path: ComputePath,
    pub cache: CacheState,
}

/// What came of an attempt.
pub enum PathOutcome {
    Ran,
    /// The path does not apply after all.
    Declined,
    Failed(String),
}

/// What comes next.
pub enum ComputeStep {
    Try(Attempt),
    /// The computation is done; this is recorded of it.
    Done { attempt: Attempt, key: String },
    Fail(String),
}

fn first_attempt(plan: &Plan, facts: &RunFacts, rank: u8) -> (attempt: Attempt)
    requires
        rank <= 3,
    ensures
        is_first_open(*plan, *facts, rank as int, attempt.path),
        attempt.cache == cache_of(*plan, attempt.path),
{
    let single: bool = match facts.seq_len {
        Some(length) => length == 1,
        None => false,
    };
    let several: bool = match facts.seq_len {
        Some(length) => length > 1,
        None => false,
    };
    let batch: bool = match facts.batch_size {
        Some(size) => size == 1,
        None => false,
    };
    if rank == 0 && plan.compiled.enabled && single && (!plan.native_attention_decode || batch) {
        return Attempt { path: ComputePath::Decode, cache: cache_state(plan.compiled.valid) };
    }
    if rank <= 1 && plan.prefill.enabled && several {
        return Attempt { path: ComputePath::Prefill, cache: cache_state(plan.prefill.valid) };
    }
    if rank <= 2 && plan.general.enabled {
        return Attempt { path: ComputePath::General, cache: cache_state(plan.general.valid) };
    }
    Attempt { path: ComputePath::Eager, cache: CacheState::Na }
}

/// How a computation starts: what is kept of the caches, the stream for single tokens, and the
/// first path.
pub open spec fn begun(before: Plan, facts: RunFacts, after: Plan, start: (bool, Attempt)) -> bool {
    &&& if new_generation(before, facts) {
        caches_reset(before, after, facts.generation_key)
    } else {
        after == before
    }
    &&& start.0 == (before.dedicated_decode_stream && facts.seq_len == Some(1i32))
    &&& is_first_open(after, facts, 0, start.1.path)
    &&& start.1.cache == cache_of(after, start.1.path)
}

/// How a computation goes on after an attempt.
pub open spec fn concluded(
    plan: Plan,
    facts: RunFacts,
    attempt: Attempt,
    outcome: PathOutcome,
    active: bool,
    inputs: Seq<DynShape>,
    step: ComputeStep,
) -> bool {
    match outcome {
        PathOutcome::Ran => {
            &&& step matches ComputeStep::Done { attempt: done, key }
            &&& done == attempt
            &&& key@ == recorded_key(plan, facts, attempt.path, active, inputs)
        },
        PathOutcome::Declined => {
            &&& step matches ComputeStep::Try(next)
            &&& is_first_open(plan, facts, path_rank(attempt.path) + 1, next.path)
            &&& next.cache == cache_of(plan, next.path)
        },
        PathOutcome::Failed(message) => {
            &&& step matches ComputeStep::Fail(text)
            &&& text@ == failure_text(attempt.path, message@)
        },
    }
}

/// Starts a computation: drops what a past generation left, and picks the first path. Also tells
/// whether the stream for single tokens is used.
pub fn begin_compute(plan: &mut Plan, facts: &RunFacts) -> (start: (bool, Attempt))
    ensures
        if new_generation(*old(plan), *facts) {
            caches_reset(*old(plan), *final(plan), facts.generation_key)
        } else {
            *final(plan) == *old(plan)
        },
        start.0 == (old(plan).dedicated_decode_stream && facts.seq_len == Some(1i32)),
        is_first_open(*final(plan), *facts, 0, start.1.path),
        start.1.cache == cache_of(*final(plan), start.1.path),
        begun(*old(plan), *facts, *final(plan), start),
        facts.self_past_len == Some(0i64) ==> final(plan).compiled.stable_cross_inputs@.len() == 0
            && final(plan).prefill.stable_cross_inputs@.len() == 0,
{
    let fresh: bool = match facts.self_past_len {
        Some(length) => length == 0,
        None => false,
    };
    let same_key: bool = match (facts.generation_key, plan.compiled.stable_generation_key) {
        (Some(a), Some(b)) => a == b,
        (None, None) => true,
        _ => false,
    };
    if fresh || !same_key {
        reset_stable_cross_caches(plan, facts.generation_key);
    }
    let dedicated: bool = use_dedicated_decode_stream(
        plan.dedicated_decode_stream,
        facts.seq_len,
    );
    let attempt: Attempt = first_attempt(plan, facts, 0);
    (dedicated, attempt)
}

/// The key that is recorded of a computation.
pub open spec fn recorded_key(
    plan: Plan,
    facts: RunFacts,
    path: ComputePath,
    active: bool,
    inputs: Seq<DynShape>,
) -> Seq<char> {
    match path {
        ComputePath::Decode => Seq::empty(),
        ComputePath::Prefill => match facts.seq_len {
            Some(length) => "S"@ + signed_decimal(length as int),
            None => Seq::empty(),
        },
        ComputePath::General => if active {
            general_key(
                shape_key_below(inputs, inputs.len() as int),
                match plan.general.control_flow_key {
                    Some(text) => Some(text@),
                    None => None,
                },
            )
        } else {
            Seq::empty()
        },
        ComputePath::Eager => Seq::empty(),
    }
}

/// What a failure is reported as.
pub open spec fn failure_text(path: ComputePath, message: Seq<char>) -> Seq<char> {
    if path == ComputePath::Eager {
        reported("MLX subgraph failed: "@ + message, "MLX subgraph failed"@)
    } else {
        reported(
            "MLX compiled "@ + path.tag() + " failed: "@ + message,
            "MLX compiled path failed"@,
        )
    }
}

fn write_key(
    plan: &Plan,
    facts: &RunFacts,
    path: ComputePath,
    active: bool,
    inputs: &Vec<DynShape>,
) -> (key: String)
    ensures
        key@ == recorded_key(*plan, *facts, path, active, inputs@),
{
    match path {
        ComputePath::Decode => String::new(),
        ComputePath::Prefill => match facts.seq_len {
            Some(length) => join2("S", signed_text(length as i64).as_str()),
            None => String::new(),
        },
        ComputePath::General => {
            if !active {
                return String::new();
            }
            let mut key: String = compute_shape_key(inputs);
            match &plan.general.control_flow_key {
                Some(text) => {
                    if !text.as_str().is_empty() {
                        key.append("|");
                        key.append(text.as_str());
                    }
                },
                None => {},
            }
            key
        },
        ComputePath::Eager => String::new(),
    }
}

/// Goes on after an attempt. A path that ran ends the computation, one that failed fails it, and
/// one that declined hands over to the next open path. `inputs` are read after the attempt, and
/// only matter where something is recorded.
pub fn conclude_attempt(
    plan: &Plan,
    facts: &RunFacts,
    attempt: Attempt,
    outcome: PathOutcome,
    active: bool,
    inputs: &Vec<DynShape>,
) -> (step: ComputeStep)
    requires
        outcome is Declined ==> attempt.path != ComputePath::Eager,
    ensures
        match outcome {
            PathOutcome::Ran => {
                &&& step matches ComputeStep::Done { attempt: done, key }
                &&& done == attempt
                &&& key@ == recorded_key(*plan, *facts, attempt.path, active, inputs@)
            },
            PathOutcome::Declined => {
                &&& step matches ComputeStep::Try(next)
                &&& is_first_open(*plan, *facts, path_rank(attempt.path) + 1, next.path)
                &&& next.cache == cache_of(*plan, next.path)
            },
            PathOutcome::Failed(message) => {
                &&& step matches ComputeStep::Fail(text)
                &&& text@ == failure_text(attempt.path, message@)
            },
        },
        concluded(*plan, *facts, attempt, outcome, active, inputs@, step),
{
    match outcome {
        PathOutcome::Ran => {
            let key: String = write_key(plan, facts, attempt.path, active, inputs);
            ComputeStep::Done { attempt, key }
        },
        PathOutcome::Declined => {
            let rank: u8 = match attempt.path {
                ComputePath::Decode => 1,
                ComputePath::Prefill => 2,
                ComputePath::General => 3,
                ComputePath::Eager => 3,
            };
            ComputeStep::Try(first_attempt(plan, facts, rank))
        },
        PathOutcome::Failed(message) => {
            if attempt.path == ComputePath::Eager {
                let text: String = join2("MLX subgraph failed: ", message.as_str());
                ComputeStep::Fail(report_text(text.as_str(), "MLX subgraph failed"))
            } else {
                let mut text: String = join3(
                    "MLX compiled ",
                    attempt.path.as_str(),
                    " failed: ",
                );
                text.append(message.as_str());
                ComputeStep::Fail(report_text(text.as_str(), "MLX compiled path failed"))
            }
        },
    }
}

/// From any place on there is exactly one path to try, and the last one is always open.
pub proof fn law_one_next_path(plan: Plan, facts: RunFacts, rank: int, a: ComputePath, b: ComputePath)
    requires
        0 <= rank <= 3,
    ensures
        exists|path: ComputePath| is_first_open(plan, facts, rank, path),
        is_first_open(plan, facts, rank, a) && is_first_open(plan, facts, rank, b) ==> a == b,
{
    if rank <= 0 && path_open(plan, facts, ComputePath::Decode) {
        assert(is_first_open(plan, facts, rank, ComputePath::Decode));
    } else if rank <= 1 && path_open(plan, facts, ComputePath::Prefill) {
        assert(is_first_open(plan, facts, rank, ComputePath::Prefill));
    } else if rank <= 2 && path_open(plan, facts, ComputePath::General) {
        assert(is_first_open(plan, facts, rank, ComputePath::General));
    } else {
        assert(is_first_open(plan, facts, rank, ComputePath::Eager));
    }
    if is_first_open(plan, facts, rank, a) && is_first_open(plan, facts, rank, b) {
        assert(path_rank(a) <= path_rank(b) || path_rank(b) < path_rank(a));
        if path_rank(a) < path_rank(b) {
            assert(!path_open(plan, facts, a));
        } else if path_rank(b) < path_rank(a) {
            assert(!path_open(plan, facts, b));
        }
    }
}

/// The single-token and the prompt path are never open at once.
pub proof fn law_decode_excludes_prefill(plan: Plan, facts: RunFacts)
    ensures
        !(path_open(plan, facts, ComputePath::Decode) && path_open(
            plan,
            facts,
            ComputePath::Prefill,
        )),
{
}

/// A plan whose compiled paths are off runs node by node.
pub proof fn law_disabled_paths_run_eager(plan: Plan, facts: RunFacts, path: ComputePath)
    requires
        !plan.compiled.enabled,
        !plan.prefill.enabled,
        !plan.general.enabled,
        is_first_open(plan, facts, 0, path),
    ensures
        path == ComputePath::Eager,
{
}

} // verus!
