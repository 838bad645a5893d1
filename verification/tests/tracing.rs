use onnxruntime_mlx::capture::{
    busy_share, capture_failed_text, channel_residency, CaptureGuard, Residency,
};
use onnxruntime_mlx::declined::count_refused;
use onnxruntime_mlx::engine::NodeDesc;
use onnxruntime_mlx::ranking::rank;
use onnxruntime_mlx::registry::CompileShapeSafety;
use onnxruntime_mlx::rejection::Rejection;
use onnxruntime_mlx::report::SummaryFigures;
use onnxruntime_mlx::summary::Summary;
use onnxruntime_mlx::tables::TimeTable;
use onnxruntime_mlx::text::{
    char_list, decimal_text, join2, join3, parse_number, parse_wide, signed_text, trim_chars,
};
use onnxruntime_mlx::trace::{CacheState, ComputePath, PathMark};
use onnxruntime_mlx::trace_args::{is_default_domain, OpMeta};
use onnxruntime_mlx::trace_export::{counter_event, splice_counters};
use onnxruntime_mlx::tracer::{CounterValue, MlxTracer, TraceEnv, TraceSettings};
use onnxruntime_mlx::tracer_spans::CaptureStep;

fn no_env() -> TraceEnv {
    TraceEnv {
        trace: None,
        signpost: None,
        capture: None,
        capture_eval: None,
        verbose: None,
    }
}

fn tracer_for(env: &TraceEnv) -> MlxTracer {
    MlxTracer::new(&TraceSettings::read(env))
}

fn tracing() -> MlxTracer {
    let mut env = no_env();
    env.trace = Some("trace.json".to_string());
    tracer_for(&env)
}

fn verbose() -> MlxTracer {
    let mut env = no_env();
    env.verbose = Some("1".to_string());
    tracer_for(&env)
}

fn node(op_type: &str, domain: &str, name: &str) -> NodeDesc {
    let mut node = NodeDesc::new(
        op_type.to_string(),
        domain.to_string(),
        1,
        CompileShapeSafety::Shapeless,
    );
    node.name = name.to_string();
    node.node_id = 3;
    node
}

fn counters(tracer: &MlxTracer) -> Vec<(String, String, String, u64)> {
    tracer
        .counters
        .iter()
        .map(|sample| {
            let value = match &sample.value {
                CounterValue::Whole(number) => format!("{number}"),
                CounterValue::Written(text) => text.clone(),
            };
            (sample.track.clone(), sample.key.clone(), value, sample.ts)
        })
        .collect()
}

fn sample(track: &str, key: &str, value: &str, ts: u64) -> (String, String, String, u64) {
    (
        track.to_string(),
        key.to_string(),
        value.to_string(),
        ts,
    )
}

#[test]
fn settings_come_from_the_environment() {
    let off = TraceSettings::read(&no_env());
    assert!(off.path.is_none() && !off.signposts && !off.verbose && off.capture_path.is_none());
    assert_eq!(off.capture_eval, 0);
    let mut env = no_env();
    env.trace = Some(String::new());
    env.signpost = Some("1".to_string());
    env.capture = Some("1".to_string());
    env.capture_eval = Some(" 5 ".to_string());
    let some = TraceSettings::read(&env);
    assert!(some.path.is_none() && some.signposts && !some.verbose);
    assert_eq!(some.capture_path.as_deref(), Some("mlx_capture.gputrace"));
    assert_eq!(some.capture_eval, 5);
    env.trace = Some("t".to_string());
    env.signpost = Some("yes".to_string());
    env.capture = Some("a.gputrace".to_string());
    env.capture_eval = Some("x".to_string());
    env.verbose = Some("0".to_string());
    let all = TraceSettings::read(&env);
    assert_eq!(all.path.as_deref(), Some("t"));
    assert!(all.signposts && all.verbose);
    assert_eq!(all.capture_path.as_deref(), Some("a.gputrace"));
    assert_eq!(all.capture_eval, 0);
}

#[test]
fn tags_are_stable() {
    assert_eq!(ComputePath::Decode.as_str(), "decode");
    assert_eq!(ComputePath::Prefill.as_str(), "prefill");
    assert_eq!(ComputePath::General.as_str(), "general");
    assert_eq!(ComputePath::Eager.as_str(), "eager");
    assert_eq!(CacheState::Hit.as_str(), "HIT");
    assert_eq!(CacheState::Miss.as_str(), "MISS");
    assert_eq!(CacheState::Retrace.as_str(), "RETRACE");
    assert_eq!(CacheState::Na.as_str(), "n/a");
}

#[test]
fn nothing_is_recorded_when_off() {
    let mut tracer = tracer_for(&no_env());
    assert!(!tracer.active() && !tracer.is_enabled());
    assert!(tracer.record_claim(1, 2, 1, &vec![], 5).is_none());
    let (state, event) = tracer.record_compute_path(
        ComputePath::General,
        CacheState::Hit,
        "k",
        &vec![],
        "p",
        5,
    );
    assert_eq!(state, CacheState::Hit);
    assert!(event.is_none());
    tracer.record_managed_wrap(10, true, 5);
    tracer.record_copyout(true, 10, 3, 5);
    tracer.record_op_time("Add", 3);
    assert!(tracer.counters.is_empty());
    assert!(tracer.summary.is_blank());
    assert!(tracer.op_times.entries.is_empty());
    assert!(tracer.phase("eval").is_none());
    assert!(!tracer.op_timer_start());
    assert!(tracer.op_span(&node("Add", "", ""), 2, 1).args.is_none());
    assert!(tracer.log_summary(&figures()).is_none());
    assert!(tracer.log_slowest_ops(&vec![]).is_none());
    assert!(tracer.export("[]", &vec![], 1).is_none());
    let (span, event) = tracer.record_op_path(
        &node("Add", "", ""),
        true,
        Some(PathMark::Composed("why".to_string())),
        5,
    );
    assert!(span.is_none() && event.is_none());
    assert_eq!(tracer.composed_count("Add"), 0);
}

fn rejection(op: &str, count: usize, reason: &str, names: &[&str]) -> Rejection {
    Rejection {
        op: op.to_string(),
        count,
        reason: reason.to_string(),
        names: names.iter().map(|name| name.to_string()).collect(),
    }
}

#[test]
fn claims_are_recorded() {
    let mut tracer = tracing();
    let rejected = vec![
        rejection("Foo", 3, "no kernel", &["a", "b"]),
        rejection("Bar", 1, "", &[]),
    ];
    assert_eq!(count_refused(&rejected), Some(4));
    assert!(tracer.summary.has_room(1 + 6 + 10 + 2 + 4));
    let event = tracer.record_claim(6, 10, 2, &rejected, 77).unwrap();
    assert_eq!(tracer.summary.used, 1 + 6 + 10 + 2 + 4);
    assert_eq!(event.name, "mlx.getcapability");
    assert_eq!(event.category, "ep.claim");
    assert_eq!(event.args["claimed"], 6);
    assert_eq!(event.args["total"], 10);
    assert_eq!(event.args["unclaimed"], 4);
    assert_eq!(event.args["fused_subgraphs"], 2);
    assert_eq!(
        event.args["fallback_Foo"],
        "x3: no kernel — nodes: [a, b, …]"
    );
    assert_eq!(event.args["fallback_Bar"], "x1: ");
    assert_eq!(event.args.len(), 6);
    assert_eq!(
        counters(&tracer),
        vec![
            sample("mlx.claimed_nodes", "nodes", "6", 77),
            sample("mlx.unclaimed_nodes", "nodes", "4", 77),
            sample("mlx.fused_subgraphs", "subgraphs", "2", 77),
        ]
    );
    tracer.record_claim(3, 2, 0, &vec![rejection("Foo", 1, "", &["c"])], 78);
    assert_eq!(tracer.summary.claimed_nodes, 9);
    assert_eq!(tracer.summary.getcap_calls, 2);
    let foo = &tracer.summary.declined.entries[0];
    assert_eq!((foo.op.as_str(), foo.count), ("Foo", 4));
    assert_eq!(foo.reason, "no kernel");
    assert_eq!(counters(&tracer)[4], sample("mlx.unclaimed_nodes", "nodes", "0", 78));
}

#[test]
fn a_fresh_tracer_has_counted_nothing() {
    let tracer = tracing();
    assert_eq!(tracer.summary.used, 0);
    assert_eq!(tracer.summary.getcap_calls, 0);
    assert_eq!(tracer.summary.claimed_nodes, 0);
    assert_eq!(tracer.summary.general_runs, 0);
    assert_eq!(tracer.summary.cache_hit, 0);
    assert_eq!(tracer.summary.managed_wrap_bytes, 0);
    assert!(tracer.summary.declined.entries.is_empty());
}

#[test]
fn a_key_once_seen_stays_seen() {
    let mut tracer = tracing();
    let nodes = vec![node("Add", "", "n0")];
    let general = ComputePath::General;
    let mut hit = |tracer: &mut MlxTracer, key: &str| {
        tracer
            .record_compute_path(general, CacheState::Hit, key, &nodes, "p", 1)
            .0
    };
    assert_eq!(hit(&mut tracer, "k"), CacheState::Retrace);
    tracer.record_claim(1, 1, 1, &vec![], 2);
    tracer.record_copyout(true, 8, 3, 3);
    tracer.record_phase("eval", 5);
    assert_eq!(hit(&mut tracer, "k"), CacheState::Hit);
    assert_eq!(hit(&mut tracer, "l"), CacheState::Retrace);
    assert_eq!(hit(&mut tracer, "k"), CacheState::Hit);
    // A partition whose name runs on like another's key scope is another partition.
    let other = tracer
        .record_compute_path(general, CacheState::Hit, "k", &nodes, "p:k", 4)
        .0;
    assert_eq!(other, CacheState::Retrace);
}

#[test]
fn a_hit_on_a_new_key_is_a_retrace() {
    let mut tracer = tracing();
    let nodes = vec![node("Add", "", "n0"), node("Mul", "", "n1")];
    let mut run = |path: ComputePath, cache: CacheState, key: &str, partition: &str| {
        tracer
            .record_compute_path(path, cache, key, &nodes, partition, 9)
            .0
    };
    let (general, prefill) = (ComputePath::General, ComputePath::Prefill);
    assert_eq!(run(general, CacheState::Miss, "a", "p"), CacheState::Miss);
    assert_eq!(run(general, CacheState::Hit, "a", "p"), CacheState::Hit);
    assert_eq!(run(general, CacheState::Hit, "b", "p"), CacheState::Retrace);
    assert_eq!(run(general, CacheState::Hit, "a", "p"), CacheState::Hit);
    assert_eq!(run(general, CacheState::Hit, "a", "q"), CacheState::Retrace);
    assert_eq!(run(prefill, CacheState::Hit, "a", "p"), CacheState::Retrace);
    assert_eq!(
        run(ComputePath::Decode, CacheState::Hit, "", "p"),
        CacheState::Hit
    );
    assert_eq!(run(ComputePath::Eager, CacheState::Na, "", "p"), CacheState::Na);
    assert_eq!(tracer.summary.cache_hit, 3);
    assert_eq!(tracer.summary.cache_miss, 1);
    assert_eq!(tracer.summary.cache_retrace, 3);
    assert_eq!(tracer.summary.general_runs, 5);
    assert_eq!(tracer.summary.prefill_runs, 1);
    let (_, event) =
        tracer.record_compute_path(general, CacheState::Hit, "a", &nodes, "p", 10);
    let event = event.unwrap();
    assert_eq!(event.name, "mlx.compute[general]");
    assert_eq!(event.category, "ep.path");
    assert_eq!(event.args["path"], "general");
    assert_eq!(event.args["cache"], "HIT");
    assert_eq!(event.args["nodes"], 2);
    assert_eq!(event.args["partition_id"], "p");
    assert_eq!(event.args["ops"], "Add,Mul");
    assert_eq!(event.args["node_names"], "n0,n1");
    assert_eq!(event.args["shape_key"], "a");
    assert_eq!(
        counters(&tracer)[0],
        sample("mlx.compute_path", "general", "1", 9)
    );
}

#[test]
fn marks_say_which_way_a_node_went() {
    let mut tracer = tracing();
    let attention = node("Attention", "com.microsoft", "attn");
    let (span, event) =
        tracer.record_op_path(&attention, true, Some(PathMark::Fast("sdpa")), 5);
    let span = span.unwrap();
    assert!(event.is_none());
    assert_eq!(span.name, "Attention [fast]");
    assert_eq!(span.category, "op.fast");
    assert_eq!(span.args["optimized"], true);
    assert_eq!(span.args["kernel"], "sdpa");
    assert_eq!(span.args["kernel_variant"], "sdpa");
    assert_eq!(
        span.args["kernel_variant_reason"],
        "MLX handler selected fused fast path"
    );
    assert_eq!(span.args["domain"], "com.microsoft");
    assert_eq!(span.args["node"], "attn");
    assert_eq!(span.args["node_id"], 3);
    assert_eq!(span.args["device"], "metal");
    assert_eq!(span.args["op_type"], "Attention");
    for count in 1..3u64 {
        let (span, event) = tracer.record_op_path(
            &attention,
            false,
            Some(PathMark::Composed("mask".to_string())),
            6,
        );
        assert!(span.is_none());
        let event = event.unwrap();
        assert_eq!(event.name, "⚠ composed-path: Attention (mask)");
        assert_eq!(event.category, "op.composed");
        assert_eq!(event.args["optimized"], false);
        assert_eq!(event.args["reason"], "mask");
        assert_eq!(tracer.composed_count("Attention"), count);
    }
    assert_eq!(
        counters(&tracer)[1],
        sample("mlx.composed_path_count", "Attention", "2", 6)
    );
    let composed = Some(PathMark::Composed("mask".to_string()));
    let (span, _) = tracer.record_op_path(&attention, true, composed, 7);
    let span = span.unwrap();
    assert_eq!(span.name, "Attention [composed]");
    assert_eq!(span.category, "op.composed");
    assert_eq!(span.args["optimized"], false);
    assert_eq!(span.args["reason"], "mask");
    let (span, event) = tracer.record_op_path(&attention, true, None, 7);
    assert!(span.is_none() && event.is_none());
    assert!(is_default_domain("") && is_default_domain("ai.onnx"));
    assert!(!is_default_domain("com.microsoft"));
}

#[test]
fn node_spans_carry_their_arguments() {
    let mut tracer = tracing();
    let add = node("Add", "ai.onnx", "n");
    let span = tracer.op_span(&add, 2, 1);
    assert_eq!((span.name.as_str(), span.category.as_str()), ("Add", "op"));
    let args = span.args.unwrap();
    assert_eq!(args["inputs"], 2);
    assert_eq!(args["outputs"], 1);
    assert_eq!(args.len(), 6);
    let meta = OpMeta {
        output_shapes: "[2]".to_string(),
        input_shapes: "[2],[2]".to_string(),
        dtype: "f32".to_string(),
        elements: 2,
        bytes: 8,
    };
    let span = tracer.record_op_meta(&add, &meta, 30).unwrap();
    assert_eq!(span.category, "op");
    assert_eq!(span.args["output_shapes"], "[2]");
    assert_eq!(span.args["input_shapes"], "[2],[2]");
    assert_eq!(span.args["dtype"], "f32");
    assert_eq!(span.args["elements"], 2);
    assert_eq!(span.args["bytes"], 8);
    assert_eq!(tracer.op_times.entries[0].micros, 30);
    let span = tracer.subgraph_region(4);
    assert_eq!((span.name.as_str(), span.category.as_str()), ("mlx.subgraph", "ep"));
    assert_eq!(span.args["nodes"], 4);
    let span = tracer.eval_region();
    assert_eq!((span.name.as_str(), span.category.as_str()), ("mlx.eval", "gpu"));
    assert_eq!(span.args["device"], "gpu");
    assert_eq!(tracer.phase("eval").as_deref(), Some("mlx.eval"));
    assert!(tracer.op_timer_start());
}

fn figures() -> SummaryFigures {
    SummaryFigures {
        claim_pct: "60.0".to_string(),
        managed_mib: "1.00".to_string(),
        copy_mib: "2.00".to_string(),
        delta_mib: "3.00".to_string(),
        full_mib: "4.00".to_string(),
    }
}

#[test]
fn the_digest_sums_a_session_up() {
    let mut tracer = verbose();
    assert!(tracer.active() && !tracer.is_enabled());
    assert!(tracer.log_summary(&figures()).is_none());
    tracer.record_claim(
        6,
        10,
        2,
        &vec![
            rejection("Bar", 1, "", &[]),
            rejection("Foo", 3, "no kernel", &[]),
        ],
        0,
    );
    tracer.record_compute_path(ComputePath::Eager, CacheState::Na, "", &vec![], "p", 0);
    tracer.record_compute_path(ComputePath::Decode, CacheState::Miss, "", &vec![], "p", 0);
    tracer.record_managed_wrap(100, true, 0);
    tracer.record_managed_wrap(50, false, 0);
    tracer.record_copy_wrap(7);
    tracer.record_copyout(true, 5, 11, 0);
    tracer.record_copyout(false, 6, 13, 0);
    tracer.record_phase("translate", 40);
    tracer.record_phase("eval", 2);
    tracer.record_phase("eval", 3);
    assert!(tracer.counters.is_empty());
    assert_eq!(tracer.summary.managed_wrap_bytes, 150);
    assert_eq!(tracer.summary.full_copyout_bytes, 6);
    let (text, event) = tracer.log_summary(&figures()).unwrap();
    assert!(event.is_none());
    assert_eq!(
        text,
        "===== MLX EP session summary =====\n\
         \x20 claim:   6/10 nodes claimed (60.0%) across 2 fused subgraph(s), 1 GetCapability call(s)\n\
         \x20          unclaimed (→ CPU):\n\
         \x20            - Foo x3: no kernel\n\
         \x20            - Bar x1: no MLX handler / opset\n\
         \x20 compute: decode=1 prefill=0 general=0 eager=1  (cache: 0 HIT / 1 MISS / 0 RETRACE)\n\
         \x20 memory:  managed-wrap 2 (1 zero-copy aligned), 1.00 MiB borrowed; copy-wrap 1, 2.00 MiB\n\
         \x20          copy-out: delta 1 (3.00 MiB) vs full 1 (4.00 MiB)\n\
         \x20 timing:  copy=24us (x2), eval=5us (x2), translate=40us (x1)\n\
         ==================================="
    );
}

#[test]
fn the_digest_travels_with_the_trace() {
    let mut tracer = tracing();
    tracer.record_claim(6, 10, 2, &vec![], 0);
    tracer.record_copyout(true, 5, 11, 21);
    assert_eq!(
        counters(&tracer)[3],
        sample("mlx.copyout_bytes", "delta", "5", 21)
    );
    let (_, event) = tracer.log_summary(&figures()).unwrap();
    let event = event.unwrap();
    assert_eq!(event.name, "mlx.session_summary");
    assert_eq!(event.category, "summary");
    assert_eq!(event.args["claimed_nodes"], 6);
    assert_eq!(event.args["claim_pct"], "60.0");
    assert_eq!(event.args["delta_copyout_bytes"], 5);
    assert_eq!(event.args.len(), 15);
}

#[test]
fn at_most_eight_declined_operators_are_listed() {
    let mut tracer = verbose();
    let rejected: Vec<Rejection> = (0..10)
        .map(|i| rejection(&format!("Op{i}"), 10 - i, "x", &[]))
        .collect();
    tracer.record_claim(0, 55, 0, &rejected, 0);
    let (text, _) = tracer.log_summary(&figures()).unwrap();
    assert!(text.contains("- Op7 x3: x\n"));
    assert!(!text.contains("- Op8 "));
}

#[test]
fn the_slowest_operators_come_first() {
    let mut tracer = tracing();
    assert!(tracer.slowest_ops().is_empty());
    tracer.record_op_time("Add", 5);
    tracer.record_op_time("MatMul", 90);
    tracer.record_op_time("Add", 5);
    let order = tracer.slowest_ops();
    let names: Vec<&str> = order
        .iter()
        .map(|&at| tracer.op_times.entries[at].name.as_str())
        .collect();
    assert_eq!(names, vec!["MatMul", "Add"]);
    assert!(tracer.log_slowest_ops(&vec!["1".to_string()]).is_none());
    let (text, event) = tracer
        .log_slowest_ops(&vec!["90.0".to_string(), "10.0".to_string()])
        .unwrap();
    assert_eq!(
        text,
        "slowest ops (build-time (fusion intact; per-kernel GPU detail: \
         ONNXRUNTIME_EP_MLX_GPU_CAPTURE)), total 100 us across 2 op-type(s):\n\
         \x20  1. MatMul                       90 us   90.0%  (1 call(s))\n\
         \x20  2. Add                          10 us   10.0%  (2 call(s))\n"
    );
    assert_eq!(event.name, "mlx.slowest_ops");
    assert_eq!(event.args["total_us"], 100);
    assert_eq!(event.args["01_MatMul"], "90us 90.0% x1");
    assert_eq!(event.args["02_Add"], "10us 10.0% x2");
    let mut table = TimeTable::new();
    for i in 0..12u64 {
        table.record(&format!("op{i}"), i);
    }
    assert_eq!(
        onnxruntime_mlx::report::slowest(&table),
        vec![11, 10, 9, 8, 7, 6, 5, 4, 3, 2]
    );
}

#[test]
fn ranks_break_ties_by_name() {
    assert_eq!(
        rank(&vec!["b", "a", "c"], &vec![1, 1, 2]),
        vec![2, 1, 0]
    );
    assert!(rank(&vec![], &vec![]).is_empty());
}

#[test]
fn counters_join_the_document() {
    let element = counter_event("t", "k", "1.5", 7, 42);
    assert_eq!(
        element,
        ",{\"name\":\"t\",\"cat\":\"gpu_counter\",\"ph\":\"C\",\"ts\":7,\"pid\":42,\"tid\":0,\
         \"args\":{\"k\":1.5}}"
    );
    assert_eq!(splice_counters("[]", &vec![]), "[]");
    assert_eq!(
        splice_counters("[]", &vec![",1".to_string(), ",2".to_string()]),
        "[1,2]"
    );
    assert_eq!(splice_counters("[0]", &vec![",1".to_string()]), "[0,1]");
    assert_eq!(splice_counters("[0", &vec![",1".to_string()]), "[0");
    let mut tracer = tracing();
    tracer.sample_gpu_counters(true, 64, 128, "50", Some("12.5"), Some("900"), 3);
    tracer.sample_gpu_counters(true, 64, 0, "", None, Some("900"), 4);
    tracer.sample_gpu_counters(false, 64, 128, "50", Some("12.5"), None, 5);
    assert_eq!(
        counters(&tracer),
        vec![
            sample("mlx.gpu_mem_bytes", "bytes", "64", 3),
            sample("mlx.gpu_mem_pct", "pct", "50", 3),
            sample("mlx.gpu_util_pct", "pct", "12.5", 3),
            sample("mlx.gpu_freq_mhz", "mhz", "900", 3),
            sample("mlx.gpu_mem_bytes", "bytes", "64", 4),
        ]
    );
    assert!(tracer.export("[]", &vec![], 9).is_none());
    let written: Vec<String> = ["64", "50", "12.5", "900", "64"]
        .iter()
        .map(|text| text.to_string())
        .collect();
    let text = tracer.export("[]", &written, 9).unwrap();
    assert!(text.starts_with("[{\"name\":\"mlx.gpu_mem_bytes\""));
    assert!(text.ends_with("\"args\":{\"bytes\":64}}]"));
    assert!(text.contains("\"args\":{\"pct\":12.5}}"));
    let other: Vec<String> = ["1", "2", "3", "4", "5"].iter().map(|text| text.to_string()).collect();
    assert_eq!(tracer.export("[]", &other, 9).unwrap(), text);
    let mut tracer = tracing();
    tracer.sample_gpu_counters(true, 9_007_199_254_740_992, 0, "", None, None, 1);
    tracer.sample_gpu_counters(true, 9_007_199_254_740_993, 0, "", None, None, 2);
    let shown = |n: u64| (n as f64).to_string();
    let written = vec![shown(9_007_199_254_740_992), shown(9_007_199_254_740_993)];
    let text = tracer.export("[0]", &written, 9).unwrap();
    assert_eq!(text.matches("\"args\":{\"bytes\":9007199254740992}}").count(), 2);
}

#[test]
fn one_evaluation_is_captured() {
    let mut env = no_env();
    env.capture = Some("a.gputrace".to_string());
    env.capture_eval = Some("2".to_string());
    let mut tracer = tracer_for(&env);
    for eval in 0..6 {
        match tracer.begin_gpu_capture(true, true) {
            CaptureStep::Start(guard) => {
                assert_eq!(eval, 2);
                assert_eq!(
                    guard.started_text(2),
                    "Metal GPU capture STARTED → a.gputrace (eval #2)"
                );
            }
            CaptureStep::Skip => assert_ne!(eval, 2),
            CaptureStep::Refuse(_) => panic!("nothing is refused"),
        }
    }
    let mut tracer = tracer_for(&env);
    for _ in 0..2 {
        tracer.begin_gpu_capture(false, false);
    }
    match tracer.begin_gpu_capture(false, true) {
        CaptureStep::Refuse(text) => assert_eq!(
            text,
            "GPU capture requested but Metal is unavailable (mlx_metal_is_available=false); \
             skipping"
        ),
        _ => panic!("there is no GPU"),
    }
    env.capture_eval = None;
    let mut tracer = tracer_for(&env);
    match tracer.begin_gpu_capture(true, false) {
        CaptureStep::Refuse(text) => {
            assert!(text.starts_with("GPU capture requires MTL_CAPTURE_ENABLED=1"));
            assert!(text.ends_with("ONNXRUNTIME_EP_MLX_GPU_CAPTURE=a.gputrace ..."));
        }
        _ => panic!("the capture layer is off"),
    }
    assert!(matches!(
        tracer_for(&no_env()).begin_gpu_capture(true, true),
        CaptureStep::Skip
    ));
    let guard = CaptureGuard {
        path: "a".to_string(),
    };
    assert_eq!(
        guard.stopped_text(),
        "Metal GPU capture STOPPED → wrote a (open in Xcode: `open a`)"
    );
    assert_eq!(
        capture_failed_text("a"),
        "GPU capture start FAILED for a (capture requires MTL_CAPTURE_ENABLED=1 in the environment \
         and a path ending in .gputrace)"
    );
}

#[test]
fn idle_states_do_not_count_as_busy() {
    let state = |name: &str, time: i64| Residency {
        name: name.to_string(),
        time,
    };
    let states = vec![state("off", 10), state("P1", 20), state("xIdLe2", 5), state("P2", 5)];
    assert_eq!(channel_residency("GPU Stats", "GPUPH", &states), (15, 40));
    assert_eq!(channel_residency("GPU Stats", "other", &states), (0, 0));
    assert_eq!(channel_residency("CPU Stats", "GPUPH", &states), (0, 0));
    assert_eq!(busy_share(15, 40), Some((25, 40)));
    assert_eq!(busy_share(50, 40), Some((0, 40)));
    assert_eq!(busy_share(0, 0), None);
}

#[test]
fn summaries_say_when_they_are_full() {
    let mut summary = Summary::new();
    assert!(summary.is_blank());
    assert!(summary.has_room(u64::MAX));
    summary.record_copy_wrap(9);
    assert!(summary.has_room(u64::MAX - 10));
    assert!(!summary.has_room(u64::MAX));
    let huge = vec![rejection("A", usize::MAX, "", &[]), rejection("B", 1, "", &[])];
    assert_eq!(count_refused(&huge), None);
}

#[test]
fn numbers_are_read_and_written() {
    assert_eq!(decimal_text(0), "0");
    assert_eq!(decimal_text(u64::MAX), "18446744073709551615");
    assert_eq!(signed_text(i64::MIN), "-9223372036854775808");
    assert_eq!(signed_text(-7), "-7");
    assert_eq!(parse_wide(&char_list("18446744073709551615")), Some(u64::MAX));
    assert_eq!(parse_wide(&char_list("18446744073709551616")), None);
    assert_eq!(parse_number(&char_list("+12")), Some(12));
    assert_eq!(parse_number(&char_list("")), None);
    assert_eq!(parse_number(&char_list("+")), None);
    assert_eq!(parse_number(&char_list("1a")), None);
    assert_eq!(trim_chars("\t a b \n"), vec!['a', ' ', 'b']);
    assert_eq!(join2("a", "é"), "aé");
    assert_eq!(join3("a", "", "c"), "ac");
}
