//! The spans and reports that the tracer asks the caller to emit.

use vstd::prelude::*;

use onnx_runtime_tracer::Args;

use crate::capture::{capture_refusal, gate_after, refuse_capture, CaptureGuard};
use crate::digraph::ints;
use crate::engine::NodeDesc;
use crate::rejection::texts;
use crate::report::{
    slowest, slowest_arg_map, slowest_args, slowest_order, slowest_text, slowest_words,
    summary_arg_map, summary_args, summary_text, summary_words, SummaryFigures,
};
use crate::tables::time_added;
use crate::text::{decimal, decimal_text, join2};
use crate::trace_args::{
    args_state, new_args, no_args, node_args, op_meta_args, op_span_args, with_number, with_text,
    ArgValue, OpMeta,
};
use crate::trace_export::{counter_element, counter_event, run_on, splice_counters, spliced};
use crate::tracer::{
    event_is, span_is, CounterSample, CounterValue, InstantEvent, MlxTracer, SpanEvent, TracerModel,
};

verus! {

/// A span that is open while the caller works.
pub struct OpenSpan {
    pub name: String,
    pub category: String,
    pub args: Option<Args>,
}

/// What is done about the capture when an evaluation starts.
pub enum CaptureStep {
    Skip,
    /// The capture is due but cannot be made; this is said.
    Refuse(String),
    Start(CaptureGuard),
}

/// Up to here a 64-bit floating-point number holds every whole number and shows all its digits.
pub const EXACT_WHOLE: u64 = 9_007_199_254_740_992;

/// The value of a counter in the trace document: a number with decimals as it was written, and a
/// whole number in decimal. A whole number that floating point may round is shown as the caller
/// wrote it.
pub open spec fn value_words(value: CounterValue, written: Seq<char>) -> Seq<char> {
    match value {
        CounterValue::Written(text) => text@,
        CounterValue::Whole(number) => if number <= EXACT_WHOLE {
            decimal(number as nat)
        } else {
            written
        },
    }
}

/// Writes the value of a counter.
fn value_text(value: &CounterValue, written: &str) -> (text: String)
    ensures
        text@ == value_words(*value, written@),
{
    match value {
        CounterValue::Written(text) => text.clone(),
        CounterValue::Whole(number) => if *number <= EXACT_WHOLE {
            decimal_text(*number)
        } else {
            written.to_owned()
        },
    }
}

/// The counters as elements of the trace document.
pub open spec fn counter_elements(
    counters: Seq<CounterSample>,
    written: Seq<Seq<char>>,
    pid: u64,
) -> Seq<Seq<char>> {
    Seq::new(
        counters.len(),
        |i: int|
            counter_element(
                counters[i].track@,
                counters[i].key@,
                value_words(counters[i].value, written[i]),
                counters[i].ts,
                pid,
            ),
    )
}

impl MlxTracer {
    /// The span around a fused subgraph's computation.
    pub fn subgraph_region(&self, node_count: usize) -> (span: SpanEvent)
        ensures
            span_is(
                span,
                "mlx.subgraph"@,
                "ep"@,
                no_args().insert("nodes"@, ArgValue::Number(node_count as u64)),
            ),
    {
        SpanEvent {
            name: "mlx.subgraph".to_owned(),
            category: "ep".to_owned(),
            args: with_number(new_args(), "nodes", node_count as u64),
        }
    }

    /// The span around an evaluation.
    pub fn eval_region(&self) -> (span: SpanEvent)
        ensures
            span_is(
                span,
                "mlx.eval"@,
                "gpu"@,
                no_args().insert("device"@, ArgValue::Text("gpu"@)),
            ),
    {
        SpanEvent {
            name: "mlx.eval".to_owned(),
            category: "gpu".to_owned(),
            args: with_text(new_args(), "device", "gpu"),
        }
    }

    /// The span around the translation of a node; it carries arguments only if events are traced.
    pub fn op_span(&self, node: &NodeDesc, num_inputs: usize, num_outputs: usize) -> (span: OpenSpan)
        ensures
            span.name@ == node.op_type@,
            span.category@ == "op"@,
            span.args is Some <==> self.enabled,
            span.args matches Some(args) ==> args_state(args) == node_args(*node).insert(
                "inputs"@,
                ArgValue::Number(num_inputs as u64),
            ).insert("outputs"@, ArgValue::Number(num_outputs as u64)),
    {
        let args: Option<Args> = if self.enabled {
            Some(op_span_args(node, num_inputs, num_outputs))
        } else {
            None
        };
        OpenSpan { name: node.op_type.clone(), category: "op".to_owned(), args }
    }

    /// Whether a node's handler is timed.
    pub fn op_timer_start(&self) -> (timed: bool)
        ensures
            timed == self.enabled,
    {
        self.enabled
    }

    /// The name of the span around a phase; there is none if nothing is recorded.
    pub fn phase(&self, phase: &str) -> (name: Option<String>)
        ensures
            name is Some <==> self.records(),
            name matches Some(text) ==> text@ == "mlx."@ + phase@,
    {
        if self.active() {
            Some(join2("mlx.", phase))
        } else {
            None
        }
    }

    /// Counts an evaluation, and tells whether it is captured.
    pub fn begin_gpu_capture(&mut self, available: bool, layer_on: bool) -> (step: CaptureStep)
        requires
            old(self).wf(),
        ensures
            final(self).wf(),
            final(self)@ == (TracerModel { capture: gate_after(old(self).capture), ..old(self)@ }),
            !old(self).capture.due() ==> step is Skip,
            old(self).capture.due() ==> {
                let path = old(self).capture.path->0;
                match capture_refusal(path@, available, layer_on) {
                    Some(reason) => step matches CaptureStep::Refuse(text) && text@ == reason,
                    None => step matches CaptureStep::Start(guard) && guard.path@ == path@,
                }
            },
    {
        if !self.capture.eval_started() {
            return CaptureStep::Skip;
        }
        match &self.capture.path {
            None => CaptureStep::Skip,
            Some(path) => match refuse_capture(path.as_str(), available, layer_on) {
                Some(text) => CaptureStep::Refuse(text),
                None => CaptureStep::Start(CaptureGuard { path: path.clone() }),
            },
        }
    }

    /// Records what is known of a node that has run, and its time.
    pub fn record_op_meta(&mut self, node: &NodeDesc, meta: &OpMeta, micros: u64) -> (span: Option<
        SpanEvent,
    >)
        requires
            old(self).wf(),
            old(self).enabled ==> old(self).op_times.total + micros <= u64::MAX,
            old(self).enabled ==> old(self).op_times.calls < u64::MAX,
        ensures
            final(self).wf(),
            span is Some <==> old(self).enabled,
            span matches Some(span) ==> span_is(
                span,
                node.op_type@,
                "op"@,
                node_args(*node).insert(
                    "output_shapes"@,
                    ArgValue::Text(meta.output_shapes@),
                ).insert("input_shapes"@, ArgValue::Text(meta.input_shapes@)).insert(
                    "dtype"@,
                    ArgValue::Text(meta.dtype@),
                ).insert("elements"@, ArgValue::Number(meta.elements)).insert(
                    "bytes"@,
                    ArgValue::Number(meta.bytes),
                ),
            ),
            final(self)@ == (if old(self).enabled {
                TracerModel {
                    op_times: time_added(old(self)@.op_times, node.op_type@, micros),
                    ..old(self)@
                }
            } else {
                old(self)@
            }),
    {
        if !self.enabled {
            return None;
        }
        let span = SpanEvent {
            name: node.op_type.clone(),
            category: "op".to_owned(),
            args: op_meta_args(node, meta),
        };
        self.record_op_time(node.op_type.as_str(), micros);
        Some(span)
    }

    /// The digest and, if events are traced, the event that carries it. There is none if nothing
    /// is recorded, or if nothing was claimed or computed.
    pub fn log_summary(&self, figures: &SummaryFigures) -> (report: Option<
        (String, Option<InstantEvent>),
    >)
        requires
            self.wf(),
        ensures
            report is Some <==> self.records() && !self.summary.blank(),
            report matches Some(report) ==> {
                &&& report.0@ == summary_words(self.summary, *figures)
                &&& report.1 is Some <==> self.enabled
                &&& report.1 matches Some(event) ==> event_is(
                    event,
                    "mlx.session_summary"@,
                    "summary"@,
                    summary_arg_map(self.summary, *figures),
                )
            },
    {
        if !self.active() {
            return None;
        }
        match summary_text(&self.summary, figures) {
            None => None,
            Some(text) => {
                let event: Option<InstantEvent> = if self.enabled {
                    Some(
                        InstantEvent {
                            name: "mlx.session_summary".to_owned(),
                            category: "summary".to_owned(),
                            args: summary_args(&self.summary, figures),
                        },
                    )
                } else {
                    None
                };
                Some((text, event))
            },
        }
    }

    /// The slowest operators, slowest first. There are none if no events are traced, or no node
    /// has run.
    pub fn slowest_ops(&self) -> (order: Vec<usize>)
        requires
            self.wf(),
        ensures
            ints(order@) == (if self.enabled {
                slowest_order(self.op_times.entries@)
            } else {
                Seq::empty()
            }),
            forall|x: int|
                0 <= x < order@.len() ==> #[trigger] order@[x] < self.op_times.entries@.len(),
    {
        if self.enabled {
            slowest(&self.op_times)
        } else {
            let none: Vec<usize> = Vec::new();
            assert(ints(none@) =~= Seq::<int>::empty());
            none
        }
    }

    /// The report on the slowest operators and the event that carries it. There is none if no
    /// events are traced, or no node has run, or there is not one share for each operator listed.
    pub fn log_slowest_ops(&self, shares: &Vec<String>) -> (report: Option<(String, InstantEvent)>)
        requires
            self.wf(),
        ensures
            report is Some <==> self.enabled && self.op_times.entries@.len() > 0 && shares@.len()
                == slowest_order(self.op_times.entries@).len(),
            report matches Some(report) ==> {
                &&& report.0@ == slowest_words(self.op_times, texts(shares@))
                &&& event_is(
                    report.1,
                    "mlx.slowest_ops"@,
                    "summary"@,
                    slowest_arg_map(self.op_times, texts(shares@)),
                )
            },
    {
        if !self.enabled || self.op_times.entries.len() == 0 {
            return None;
        }
        let order: Vec<usize> = slowest(&self.op_times);
        assert(ints(order@).len() == order@.len());
        if shares.len() != order.len() {
            return None;
        }
        let text: String = slowest_text(&self.op_times, &order, shares);
        let event = InstantEvent {
            name: "mlx.slowest_ops".to_owned(),
            category: "summary".to_owned(),
            args: slowest_args(&self.op_times, &order, shares),
        };
        Some((text, event))
    }

    /// The trace document: the tracer's events and the counters. `written` holds each value as
    /// floating point shows it; it counts only where the value itself does not say. There is no
    /// document if no events are traced, or there is not one text for each counter.
    pub fn export(&self, document: &str, written: &Vec<String>, pid: u64) -> (text: Option<String>)
        ensures
            text is Some <==> self.enabled && written@.len() == self.counters@.len(),
            text matches Some(text) ==> text@ == spliced(
                document@,
                run_on(counter_elements(self.counters@, texts(written@), pid)),
            ),
    {
        if !self.enabled || written.len() != self.counters.len() {
            return None;
        }
        let mut elements: Vec<String> = Vec::new();
        while elements.len() < self.counters.len()
            invariant
                elements@.len() <= self.counters@.len(),
                written@.len() == self.counters@.len(),
                forall|i: int|
                    0 <= i < elements@.len() ==> (#[trigger] elements@[i])@ == counter_elements(
                        self.counters@,
                        texts(written@),
                        pid,
                    )[i],
            decreases self.counters@.len() - elements@.len(),
        {
            let at: usize = elements.len();
            let counter: &CounterSample = &self.counters[at];
            let value: String = value_text(&counter.value, written[at].as_str());
            let element: String = counter_event(
                counter.track.as_str(),
                counter.key.as_str(),
                value.as_str(),
                counter.ts,
                pid,
            );
            assert(texts(written@)[at as int] == written@[at as int]@);
            elements.push(element);
        }
        proof {
            assert(texts(elements@) =~= counter_elements(self.counters@, texts(written@), pid));
        }
        Some(splice_counters(document, &elements))
    }
}

} // verus!
