//! The tracer: what it keeps, and which events it asks the caller to emit.

use vstd::hash_map::StringHashMap;
use vstd::prelude::*;
use vstd::string::StringExecFns;

use onnx_runtime_tracer::Args;

use crate::capture::CaptureGate;
use crate::engine::NodeDesc;
use crate::rejection::{texts, Rejection};
use crate::summary::{
    after_claim, after_compute, after_copyout, claim_cost, empty_digest, resolved, scope_name,
    Digest, Summary,
};
use crate::tables::{time_added, TimeTable};
use crate::text::{join2, join3, parse_wide, parsed_number, same_text, trim_chars, trimmed};
use crate::trace::{CacheState, ComputePath, PathMark};
use crate::trace_args::{
    args_state, claim_arg_map, claim_args, composed_args, composed_path_args, count_unclaimed,
    fast_args, fast_path_args, join_all, joined, new_args, no_args, unclaimed, with_number,
    with_text, ArgValue,
};

verus! {

/// The settings as they are found in the environment.
pub struct TraceEnv {
    pub trace: Option<String>,
    pub signpost: Option<String>,
    pub capture: Option<String>,
    pub capture_eval: Option<String>,
    pub verbose: Option<String>,
}

/// What the settings ask for.
pub struct TraceSettings {
    /// Where the trace goes; tracing is on if there is a place.
    pub path: Option<String>,
    pub signposts: bool,
    pub capture_path: Option<String>,
    pub capture_eval: u64,
    pub verbose: bool,
}

pub open spec fn text_of(value: Option<String>) -> Option<Seq<char>> {
    match value {
        Some(text) => Some(text@),
        None => None,
    }
}

/// A setting counts only if it is not empty.
pub open spec fn nonempty(value: Option<Seq<char>>) -> Option<Seq<char>> {
    match value {
        Some(text) => if text.len() > 0 {
            Some(text)
        } else {
            None
        },
        None => None,
    }
}

/// Where a capture goes; a bare one stands for the usual place.
pub open spec fn capture_place(value: Option<Seq<char>>) -> Option<Seq<char>> {
    match nonempty(value) {
        Some(text) => if text == "1"@ {
            Some("mlx_capture.gputrace"@)
        } else {
            Some(text)
        },
        None => None,
    }
}

/// The evaluation to capture; the first if the setting is no number.
pub open spec fn capture_target(value: Option<Seq<char>>) -> nat {
    match value {
        Some(text) => match parsed_number(trimmed(text), u64::MAX as nat) {
            Some(number) => number,
            None => 0,
        },
        None => 0,
    }
}

/// The switch is set to one.
pub open spec fn switched_on(value: Option<Seq<char>>) -> bool {
    value == Some("1"@)
}

fn kept(value: &Option<String>) -> (text: Option<String>)
    ensures
        text_of(text) == nonempty(text_of(*value)),
{
    match value {
        Some(text) => if text.as_str().is_empty() {
            None
        } else {
            Some(text.clone())
        },
        None => None,
    }
}

fn is_one(value: &Option<String>) -> (on: bool)
    ensures
        on == switched_on(text_of(*value)),
{
    match value {
        Some(text) => same_text(text.as_str(), "1"),
        None => false,
    }
}

impl TraceSettings {
    /// Reads the settings. A trace also turns signposts and the digest on.
    pub fn read(env: &TraceEnv) -> (settings: TraceSettings)
        ensures
            text_of(settings.path) == nonempty(text_of(env.trace)),
            settings.signposts == (settings.path is Some || switched_on(text_of(env.signpost))),
            text_of(settings.capture_path) == capture_place(text_of(env.capture)),
            settings.capture_eval == capture_target(text_of(env.capture_eval)),
            settings.verbose == (settings.path is Some || switched_on(text_of(env.verbose))),
    {
        let path: Option<String> = kept(&env.trace);
        let on: bool = path.is_some();
        let capture_path: Option<String> = match kept(&env.capture) {
            None => None,
            Some(text) => if same_text(text.as_str(), "1") {
                Some("mlx_capture.gputrace".to_owned())
            } else {
                Some(text)
            },
        };
        let capture_eval: u64 = match &env.capture_eval {
            None => 0,
            Some(text) => match parse_wide(&trim_chars(text.as_str())) {
                Some(number) => number,
                None => 0,
            },
        };
        TraceSettings {
            path,
            signposts: on || is_one(&env.signpost),
            capture_path,
            capture_eval,
            verbose: on || is_one(&env.verbose),
        }
    }
}

/// The value of a counter: a whole number, or a number with decimals as it is written.
pub enum CounterValue {
    Whole(u64),
    Written(String),
}

/// One point on a counter track.
pub struct CounterSample {
    pub track: String,
    pub key: String,
    pub value: CounterValue,
    pub ts: u64,
}

pub ghost enum ValueModel {
    Whole(u64),
    Written(Seq<char>),
}

#[verifier::ext_equal]
pub ghost struct SampleModel {
    pub track: Seq<char>,
    pub key: Seq<char>,
    pub value: ValueModel,
    pub ts: u64,
}

impl View for CounterSample {
    type V = SampleModel;

    open spec fn view(&self) -> SampleModel {
        SampleModel {
            track: self.track@,
            key: self.key@,
            value: match self.value {
                CounterValue::Whole(number) => ValueModel::Whole(number),
                CounterValue::Written(text) => ValueModel::Written(text@),
            },
            ts: self.ts,
        }
    }
}

pub open spec fn sample_models(list: Seq<CounterSample>) -> Seq<SampleModel> {
    Seq::new(list.len(), |i: int| list[i]@)
}

/// A point with a whole value.
pub open spec fn whole_sample(
    track: Seq<char>,
    key: Seq<char>,
    value: u64,
    ts: u64,
) -> SampleModel {
    SampleModel { track, key, value: ValueModel::Whole(value), ts }
}

/// A point with a written value.
pub open spec fn written_sample(
    track: Seq<char>,
    key: Seq<char>,
    value: Seq<char>,
    ts: u64,
) -> SampleModel {
    SampleModel { track, key, value: ValueModel::Written(value), ts }
}

/// An event to emit at once.
pub struct InstantEvent {
    pub name: String,
    pub category: String,
    pub args: Args,
}

/// A finished span to emit; it covers the time since the node's handler started.
pub struct SpanEvent {
    pub name: String,
    pub category: String,
    pub args: Args,
}

/// The event is as described.
pub open spec fn event_is(
    event: InstantEvent,
    name: Seq<char>,
    category: Seq<char>,
    args: Map<Seq<char>, ArgValue>,
) -> bool {
    event.name@ == name && event.category@ == category && args_state(event.args) == args
}

pub open spec fn span_is(
    span: SpanEvent,
    name: Seq<char>,
    category: Seq<char>,
    args: Map<Seq<char>, ArgValue>,
) -> bool {
    span.name@ == name && span.category@ == category && args_state(span.args) == args
}

pub struct MlxTracer {
    /// Events are traced.
    pub enabled: bool,
    /// The digest is printed.
    pub verbose: bool,
    pub summary: Summary,
    pub counters: Vec<CounterSample>,
    /// How often each operator was composed.
    pub composed: StringHashMap<u64>,
    pub op_times: TimeTable,
    pub capture: CaptureGate,
}

#[verifier::ext_equal]
pub ghost struct TracerModel {
    pub enabled: bool,
    pub verbose: bool,
    pub digest: Digest,
    /// How far the counters of the digest may have grown.
    pub used: int,
    pub counters: Seq<SampleModel>,
    pub composed: Map<Seq<char>, u64>,
    pub op_times: Map<Seq<char>, (u64, u64)>,
    pub capture: CaptureGate,
}

impl View for MlxTracer {
    type V = TracerModel;

    open spec fn view(&self) -> TracerModel {
        TracerModel {
            enabled: self.enabled,
            verbose: self.verbose,
            digest: self.summary@,
            used: self.summary.used as int,
            counters: sample_models(self.counters@),
            composed: self.composed@,
            op_times: self.op_times@,
            capture: self.capture,
        }
    }
}

/// How often an operator was composed.
pub open spec fn times_composed(composed: Map<Seq<char>, u64>, op: Seq<char>) -> u64 {
    if composed.contains_key(op) {
        composed[op]
    } else {
        0
    }
}

/// The operators of the nodes, separated by commas.
pub open spec fn op_list(nodes: Seq<NodeDesc>) -> Seq<char> {
    joined(Seq::new(nodes.len(), |i: int| nodes[i].op_type@), ","@)
}

/// The names of the nodes, separated by commas.
pub open spec fn name_list(nodes: Seq<NodeDesc>) -> Seq<char> {
    joined(Seq::new(nodes.len(), |i: int| nodes[i].name@), ","@)
}

fn list_ops(nodes: &Vec<NodeDesc>) -> (text: String)
    ensures
        text@ == op_list(nodes@),
{
    let mut list: Vec<String> = Vec::new();
    while list.len() < nodes.len()
        invariant
            list@.len() <= nodes@.len(),
            forall|i: int| 0 <= i < list@.len() ==> (#[trigger] list@[i])@ == nodes@[i].op_type@,
        decreases nodes@.len() - list@.len(),
    {
        let next: String = nodes[list.len()].op_type.clone();
        list.push(next);
    }
    proof {
        assert(texts(list@) =~= Seq::new(nodes@.len(), |i: int| nodes@[i].op_type@));
    }
    join_all(&list, ",")
}

fn list_names(nodes: &Vec<NodeDesc>) -> (text: String)
    ensures
        text@ == name_list(nodes@),
{
    let mut list: Vec<String> = Vec::new();
    while list.len() < nodes.len()
        invariant
            list@.len() <= nodes@.len(),
            forall|i: int| 0 <= i < list@.len() ==> (#[trigger] list@[i])@ == nodes@[i].name@,
        decreases nodes@.len() - list@.len(),
    {
        let next: String = nodes[list.len()].name.clone();
        list.push(next);
    }
    proof {
        assert(texts(list@) =~= Seq::new(nodes@.len(), |i: int| nodes@[i].name@));
    }
    join_all(&list, ",")
}

/// The arguments of a computation.
pub open spec fn compute_arg_map(
    path: ComputePath,
    state: CacheState,
    nodes: Seq<NodeDesc>,
    partition: Seq<char>,
    key: Seq<char>,
) -> Map<Seq<char>, ArgValue> {
    let args = no_args().insert("path"@, ArgValue::Text(path.tag())).insert(
        "cache"@,
        ArgValue::Text(state.tag()),
    ).insert("nodes"@, ArgValue::Number(nodes.len() as u64)).insert(
        "partition_id"@,
        ArgValue::Text(partition),
    ).insert("ops"@, ArgValue::Text(op_list(nodes))).insert(
        "node_names"@,
        ArgValue::Text(name_list(nodes)),
    );
    if key.len() > 0 {
        args.insert("shape_key"@, ArgValue::Text(key))
    } else {
        args
    }
}

fn compute_args(
    path: ComputePath,
    state: CacheState,
    nodes: &Vec<NodeDesc>,
    partition: &str,
    key: &str,
) -> (args: Args)
    ensures
        args_state(args) == compute_arg_map(path, state, nodes@, partition@, key@),
{
    let args: Args = with_text(new_args(), "path", path.as_str());
    let args: Args = with_text(args, "cache", state.as_str());
    let args: Args = with_number(args, "nodes", nodes.len() as u64);
    let args: Args = with_text(args, "partition_id", partition);
    let args: Args = with_text(args, "ops", list_ops(nodes).as_str());
    let args: Args = with_text(args, "node_names", list_names(nodes).as_str());
    if key.is_empty() {
        args
    } else {
        with_text(args, "shape_key", key)
    }
}

/// The tracer after a claim.
pub open spec fn tracer_after_claim(
    before: TracerModel,
    claimed: usize,
    total: usize,
    subgraphs: usize,
    rejected: Seq<Rejection>,
    now: u64,
) -> TracerModel {
    TracerModel {
        digest: after_claim(before.digest, claimed, total, subgraphs, rejected),
        used: before.used + claim_cost(claimed, total, subgraphs, rejected),
        counters: if before.enabled {
            before.counters.push(
                whole_sample("mlx.claimed_nodes"@, "nodes"@, claimed as u64, now),
            ).push(
                whole_sample(
                    "mlx.unclaimed_nodes"@,
                    "nodes"@,
                    unclaimed(claimed, total),
                    now,
                ),
            ).push(whole_sample("mlx.fused_subgraphs"@, "subgraphs"@, subgraphs as u64, now))
        } else {
            before.counters
        },
        ..before
    }
}

impl MlxTracer {
    pub open spec fn wf(&self) -> bool {
        self.summary.wf() && self.op_times.wf()
    }

    /// A tracer with these settings that has recorded nothing.
    pub fn new(settings: &TraceSettings) -> (tracer: Self)
        ensures
            tracer.wf(),
            tracer.enabled == settings.path is Some,
            tracer.verbose == settings.verbose,
            tracer.summary@ == empty_digest(),
            tracer.summary.used == 0,
            tracer.counters@.len() == 0,
            tracer.composed@ == Map::<Seq<char>, u64>::empty(),
            tracer.op_times@ == Map::<Seq<char>, (u64, u64)>::empty(),
            text_of(tracer.capture.path) == text_of(settings.capture_path),
            tracer.capture.target == settings.capture_eval,
            tracer.capture.seq == 0,
            !tracer.capture.done,
    {
        let path: Option<String> = match &settings.capture_path {
            Some(path) => Some(path.clone()),
            None => None,
        };
        MlxTracer {
            enabled: settings.path.is_some(),
            verbose: settings.verbose,
            summary: Summary::new(),
            counters: Vec::new(),
            composed: StringHashMap::new(),
            op_times: TimeTable::new(),
            capture: CaptureGate::new(path, settings.capture_eval),
        }
    }

    pub fn is_enabled(&self) -> (enabled: bool)
        ensures
            enabled == self.enabled,
    {
        self.enabled
    }

    /// Something is recorded.
    pub open spec fn records(&self) -> bool {
        self.enabled || self.verbose
    }

    /// Whether anything is recorded.
    pub fn active(&self) -> (active: bool)
        ensures
            active == self.records(),
            active <==> self.enabled || self.verbose,
    {
        self.enabled || self.verbose
    }

    fn push_counter(&mut self, track: &str, key: &str, value: u64, now: u64)
        ensures
            final(self)@ == (TracerModel {
                counters: old(self)@.counters.push(whole_sample(track@, key@, value, now)),
                ..old(self)@
            }),
            final(self).summary == old(self).summary,
            final(self).op_times == old(self).op_times,
    {
        let ghost before = self@;
        self.counters.push(
            CounterSample {
                track: track.to_owned(),
                key: key.to_owned(),
                value: CounterValue::Whole(value),
                ts: now,
            },
        );
        proof {
            assert(self@.counters =~= before.counters.push(
                whole_sample(track@, key@, value, now),
            ));
        }
    }

    fn push_written(&mut self, track: &str, key: &str, value: &str, now: u64)
        ensures
            final(self)@ == (TracerModel {
                counters: old(self)@.counters.push(written_sample(track@, key@, value@, now)),
                ..old(self)@
            }),
            final(self).summary == old(self).summary,
            final(self).op_times == old(self).op_times,
    {
        let ghost before = self@;
        self.counters.push(
            CounterSample {
                track: track.to_owned(),
                key: key.to_owned(),
                value: CounterValue::Written(value.to_owned()),
                ts: now,
            },
        );
        proof {
            assert(self@.counters =~= before.counters.push(
                written_sample(track@, key@, value@, now),
            ));
        }
    }

    /// Records a claim.
    pub fn record_claim(
        &mut self,
        claimed: usize,
        total: usize,
        subgraphs: usize,
        rejected: &Vec<Rejection>,
        now: u64,
    ) -> (event: Option<InstantEvent>)
        requires
            old(self).wf(),
            old(self).records() ==> old(self).summary.room_for(
                claim_cost(claimed, total, subgraphs, rejected@),
            ),
        ensures
            final(self).wf(),
            !old(self).records() ==> event is None && final(self)@ == old(self)@,
            old(self).records() ==> final(self)@ == tracer_after_claim(
                old(self)@,
                claimed,
                total,
                subgraphs,
                rejected@,
                now,
            ),
            old(self).enabled <==> event is Some,
            event matches Some(event) ==> event_is(
                event,
                "mlx.getcapability"@,
                "ep.claim"@,
                claim_arg_map(claimed, total, subgraphs, rejected@),
            ),
    {
        if !self.active() {
            return None;
        }
        self.summary.record_claim(claimed, total, subgraphs, rejected);
        if !self.enabled {
            return None;
        }
        let args: Args = claim_args(claimed, total, subgraphs, rejected);
        self.push_counter("mlx.claimed_nodes", "nodes", claimed as u64, now);
        self.push_counter("mlx.unclaimed_nodes", "nodes", count_unclaimed(claimed, total), now);
        self.push_counter("mlx.fused_subgraphs", "subgraphs", subgraphs as u64, now);
        Some(
            InstantEvent {
                name: "mlx.getcapability".to_owned(),
                category: "ep.claim".to_owned(),
                args,
            },
        )
    }

    /// Records which path a computation took, and tells how the cache fared. Nothing is looked up
    /// if nothing is recorded.
    pub fn record_compute_path(
        &mut self,
        path: ComputePath,
        cache: CacheState,
        shape_key: &str,
        nodes: &Vec<NodeDesc>,
        partition: &str,
        now: u64,
    ) -> (recorded: (CacheState, Option<InstantEvent>))
        requires
            old(self).wf(),
            old(self).records() ==> old(self).summary.room_for(1),
        ensures
            final(self).wf(),
            !old(self).records() ==> recorded.0 == cache && recorded.1 is None && final(self)@
                == old(self)@,
            old(self).records() ==> {
                &&& recorded.0 == resolved(
                    old(self)@.digest.seen,
                    cache,
                    scope_name(path, partition@),
                    shape_key@,
                )
                &&& final(self)@ == (TracerModel {
                    digest: after_compute(
                        old(self)@.digest,
                        path,
                        cache,
                        partition@,
                        shape_key@,
                    ),
                    used: old(self)@.used + 1,
                    counters: if old(self).enabled {
                        old(self)@.counters.push(
                            whole_sample("mlx.compute_path"@, path.tag(), 1, now),
                        )
                    } else {
                        old(self)@.counters
                    },
                    ..old(self)@
                })
            },
            old(self).enabled <==> recorded.1 is Some,
            recorded.1 matches Some(event) ==> event_is(
                event,
                "mlx.compute["@ + path.tag() + "]"@,
                "ep.path"@,
                compute_arg_map(path, recorded.0, nodes@, partition@, shape_key@),
            ),
    {
        if !self.active() {
            return (cache, None);
        }
        let state: CacheState = self.summary.record_compute(path, cache, partition, shape_key);
        if !self.enabled {
            return (state, None);
        }
        let args: Args = compute_args(path, state, nodes, partition, shape_key);
        self.push_counter("mlx.compute_path", path.as_str(), 1, now);
        (
            state,
            Some(
                InstantEvent {
                    name: join3("mlx.compute[", path.as_str(), "]"),
                    category: "ep.path".to_owned(),
                    args,
                },
            ),
        )
    }

    /// Records an input that was wrapped; an aligned one is not copied.
    pub fn record_managed_wrap(&mut self, bytes: u64, aligned: bool, now: u64)
        requires
            old(self).wf(),
            old(self).records() ==> old(self).summary.room_for(bytes + 1),
        ensures
            final(self).wf(),
            !old(self).records() ==> final(self)@ == old(self)@,
            old(self).records() ==> final(self)@ == (TracerModel {
                digest: Digest {
                    managed_wraps: old(self)@.digest.managed_wraps + 1,
                    managed_bytes: old(self)@.digest.managed_bytes + bytes,
                    managed_aligned: old(self)@.digest.managed_aligned + (if aligned {
                        1int
                    } else {
                        0int
                    }),
                    ..old(self)@.digest
                },
                used: old(self)@.used + bytes + 1,
                counters: if old(self).enabled {
                    old(self)@.counters.push(
                        whole_sample("mlx.mem_wrap_bytes"@, "bytes"@, bytes, now),
                    )
                } else {
                    old(self)@.counters
                },
                ..old(self)@
            }),
    {
        if !self.active() {
            return;
        }
        self.summary.record_managed_wrap(bytes, aligned);
        if self.enabled {
            self.push_counter("mlx.mem_wrap_bytes", "bytes", bytes, now);
        }
    }

    /// Records an input that was copied.
    pub fn record_copy_wrap(&mut self, bytes: u64)
        requires
            old(self).wf(),
            old(self).records() ==> old(self).summary.room_for(bytes + 1),
        ensures
            final(self).wf(),
            !old(self).records() ==> final(self)@ == old(self)@,
            old(self).records() ==> final(self)@ == (TracerModel {
                digest: Digest {
                    copy_wraps: old(self)@.digest.copy_wraps + 1,
                    copy_bytes: old(self)@.digest.copy_bytes + bytes,
                    ..old(self)@.digest
                },
                used: old(self)@.used + bytes + 1,
                ..old(self)@
            }),
    {
        if !self.active() {
            return;
        }
        self.summary.record_copy_wrap(bytes);
    }

    /// Records an output that was copied, whole or only where it changed.
    pub fn record_copyout(&mut self, delta: bool, bytes: u64, micros: u64, now: u64)
        requires
            old(self).wf(),
            old(self).records() ==> old(self).summary.room_for(bytes + micros + 1),
        ensures
            final(self).wf(),
            !old(self).records() ==> final(self)@ == old(self)@,
            old(self).records() ==> final(self)@ == (TracerModel {
                digest: after_copyout(old(self)@.digest, delta, bytes, micros),
                used: old(self)@.used + bytes + micros + 1,
                counters: if old(self).enabled {
                    old(self)@.counters.push(
                        whole_sample(
                            "mlx.copyout_bytes"@,
                            if delta {
                                "delta"@
                            } else {
                                "full"@
                            },
                            bytes,
                            now,
                        ),
                    )
                } else {
                    old(self)@.counters
                },
                ..old(self)@
            }),
    {
        if !self.active() {
            return;
        }
        self.summary.record_copyout(delta, bytes, micros);
        if self.enabled {
            let key: &str = if delta {
                "delta"
            } else {
                "full"
            };
            self.push_counter("mlx.copyout_bytes", key, bytes, now);
        }
    }

    /// Records the time of a phase.
    pub fn record_phase(&mut self, phase: &str, micros: u64)
        requires
            old(self).wf(),
            old(self).records() ==> old(self).summary.room_for(micros + 1),
        ensures
            final(self).wf(),
            !old(self).records() ==> final(self)@ == old(self)@,
            old(self).records() ==> final(self)@ == (TracerModel {
                digest: Digest {
                    phases: time_added(old(self)@.digest.phases, phase@, micros),
                    ..old(self)@.digest
                },
                used: old(self)@.used + micros + 1,
                ..old(self)@
            }),
    {
        if !self.active() {
            return;
        }
        self.summary.record_phase(phase, micros);
    }

    /// How often an operator was composed.
    pub fn composed_count(&self, op: &str) -> (count: u64)
        ensures
            count == times_composed(self@.composed, op@),
    {
        match self.composed.get(op) {
            Some(count) => *count,
            None => 0,
        }
    }

    fn bump_composed_counter(&mut self, op: &str, now: u64)
        requires
            times_composed(old(self)@.composed, op@) < u64::MAX,
        ensures
            ({
                let count = (times_composed(old(self)@.composed, op@) + 1) as u64;
                final(self)@ == (TracerModel {
                    composed: old(self)@.composed.insert(op@, count),
                    counters: old(self)@.counters.push(
                        whole_sample("mlx.composed_path_count"@, op@, count, now),
                    ),
                    ..old(self)@
                })
            }),
            final(self).summary == old(self).summary,
            final(self).op_times == old(self).op_times,
    {
        let count: u64 = self.composed_count(op) + 1;
        self.composed.insert(op.to_owned(), count);
        self.push_counter("mlx.composed_path_count", op, count, now);
    }

    /// Records which way a node's handler went. A fused kernel gives a span `<Op> [fast]`, a
    /// composed form a span `<Op> [composed]` and a mark of its own; spans need a start time.
    pub fn record_op_path(
        &mut self,
        node: &NodeDesc,
        timed: bool,
        mark: Option<PathMark>,
        now: u64,
    ) -> (events: (Option<SpanEvent>, Option<InstantEvent>))
        requires
            old(self).wf(),
            old(self).enabled && mark is Some && mark->0 is Composed ==> times_composed(
                old(self)@.composed,
                node.op_type@,
            ) < u64::MAX,
        ensures
            final(self).wf(),
            (!old(self).enabled || mark is None) ==> events.0 is None && events.1 is None
                && final(self)@ == old(self)@,
            old(self).enabled && mark is Some ==> (events.0 is Some <==> timed),
            old(self).enabled ==> match mark {
                None => true,
                Some(PathMark::Fast(kernel)) => {
                    &&& events.0 matches Some(span) ==> span_is(
                        span,
                        node.op_type@ + " [fast]"@,
                        "op.fast"@,
                        fast_args(*node, kernel@),
                    )
                    &&& events.1 is None
                    &&& final(self)@ == old(self)@
                },
                Some(PathMark::Composed(reason)) => {
                    let count = (times_composed(old(self)@.composed, node.op_type@) + 1) as u64;
                    &&& events.0 matches Some(span) ==> span_is(
                        span,
                        node.op_type@ + " [composed]"@,
                        "op.composed"@,
                        composed_args(*node, reason@),
                    )
                    &&& events.1 is Some
                    &&& event_is(
                        events.1->0,
                        "⚠ composed-path: "@ + node.op_type@ + " ("@ + reason@ + ")"@,
                        "op.composed"@,
                        composed_args(*node, reason@),
                    )
                    &&& final(self)@ == (TracerModel {
                        composed: old(self)@.composed.insert(node.op_type@, count),
                        counters: old(self)@.counters.push(
                            whole_sample("mlx.composed_path_count"@, node.op_type@, count, now),
                        ),
                        ..old(self)@
                    })
                },
            },
    {
        if !self.enabled {
            return (None, None);
        }
        match mark {
            None => (None, None),
            Some(PathMark::Fast(kernel)) => {
                if timed {
                    let span = SpanEvent {
                        name: join2(node.op_type.as_str(), " [fast]"),
                        category: "op.fast".to_owned(),
                        args: fast_path_args(node, kernel),
                    };
                    (Some(span), None)
                } else {
                    (None, None)
                }
            },
            Some(PathMark::Composed(reason)) => {
                let span: Option<SpanEvent> = if timed {
                    Some(
                        SpanEvent {
                            name: join2(node.op_type.as_str(), " [composed]"),
                            category: "op.composed".to_owned(),
                            args: composed_path_args(node, reason.as_str()),
                        },
                    )
                } else {
                    None
                };
                let mut name: String = join3(
                    "⚠ composed-path: ",
                    node.op_type.as_str(),
                    " (",
                );
                name.append(reason.as_str());
                name.append(")");
                let event = InstantEvent {
                    name,
                    category: "op.composed".to_owned(),
                    args: composed_path_args(node, reason.as_str()),
                };
                self.bump_composed_counter(node.op_type.as_str(), now);
                (span, Some(event))
            },
        }
    }

    /// Records the time of one node.
    pub fn record_op_time(&mut self, op_type: &str, micros: u64)
        requires
            old(self).wf(),
            old(self).enabled ==> old(self).op_times.total + micros <= u64::MAX,
            old(self).enabled ==> old(self).op_times.calls < u64::MAX,
        ensures
            final(self).wf(),
            final(self)@ == (if old(self).enabled {
                TracerModel {
                    op_times: time_added(old(self)@.op_times, op_type@, micros),
                    ..old(self)@
                }
            } else {
                old(self)@
            }),
    {
        if self.enabled {
            self.op_times.record(op_type, micros);
        }
    }

    /// Records how much memory the GPU holds, its share of the recommended amount where there is
    /// one, and how busy it is where that is known. Shares and frequencies come in as they are
    /// written.
    pub fn sample_gpu_counters(
        &mut self,
        device: bool,
        allocated: u64,
        recommended: u64,
        memory_share: &str,
        busy_share: Option<&str>,
        megahertz: Option<&str>,
        now: u64,
    )
        requires
            old(self).wf(),
        ensures
            final(self).wf(),
            final(self)@ == (TracerModel {
                counters: if old(self).enabled && device {
                    gpu_samples(
                        old(self)@.counters,
                        allocated,
                        recommended,
                        memory_share@,
                        busy_share,
                        megahertz,
                        now,
                    )
                } else {
                    old(self)@.counters
                },
                ..old(self)@
            }),
    {
        if !self.enabled || !device {
            return;
        }
        self.push_counter("mlx.gpu_mem_bytes", "bytes", allocated, now);
        if recommended > 0 {
            self.push_written("mlx.gpu_mem_pct", "pct", memory_share, now);
        }
        match busy_share {
            Some(share) => {
                self.push_written("mlx.gpu_util_pct", "pct", share, now);
                match megahertz {
                    Some(number) => {
                        self.push_written("mlx.gpu_freq_mhz", "mhz", number, now);
                    },
                    None => {},
                }
            },
            None => {},
        }
    }
}

/// The counters after a look at the GPU.
pub open spec fn gpu_samples(
    counters: Seq<SampleModel>,
    allocated: u64,
    recommended: u64,
    memory_share: Seq<char>,
    busy_share: Option<&str>,
    megahertz: Option<&str>,
    now: u64,
) -> Seq<SampleModel> {
    let bytes = counters.push(whole_sample("mlx.gpu_mem_bytes"@, "bytes"@, allocated, now));
    let memory = if recommended > 0 {
        bytes.push(written_sample("mlx.gpu_mem_pct"@, "pct"@, memory_share, now))
    } else {
        bytes
    };
    match busy_share {
        Some(share) => {
            let busy = memory.push(written_sample("mlx.gpu_util_pct"@, "pct"@, share@, now));
            match megahertz {
                Some(number) => busy.push(
                    written_sample("mlx.gpu_freq_mhz"@, "mhz"@, number@, now),
                ),
                None => busy,
            }
        },
        None => memory,
    }
}

/// Without the settings for tracing and for the digest, both are off.
pub proof fn law_off_by_default(settings: TraceSettings, env: TraceEnv)
    requires
        text_of(settings.path) == nonempty(text_of(env.trace)),
        settings.verbose == (settings.path is Some || switched_on(text_of(env.verbose))),
        env.trace is None,
        env.verbose is None,
    ensures
        settings.path is None,
        !settings.verbose,
{
}

} // verus!
