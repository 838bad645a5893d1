use onnxruntime_mlx::engine::{NodeDesc, OutRef};
use onnxruntime_mlx::mlx::{check_call, is_page_aligned, Array, Closure, Stream, VectorArray};
use onnxruntime_mlx::plan::Plan;
use onnxruntime_mlx::registry::CompileShapeSafety;
use onnxruntime_mlx::runtime::{
    begin_compute, cache_state, compute_shape_key, conclude_attempt, plan_stream,
    reset_stable_cross_caches, use_dedicated_decode_stream, ComputeStep, DynShape, PathOutcome,
    RunFacts, RunGate,
};
use onnxruntime_mlx::status::{
    factory_refusal, panic_log, panic_payload_message, panic_status, report_text,
};
use onnxruntime_mlx::trace::{CacheState, ComputePath};

const DOUBLE: u32 = 11;
const FLOAT: u32 = 1;

fn node_with_output(otype: u32) -> NodeDesc {
    let mut node = NodeDesc::new(
        "Elu".to_string(),
        String::new(),
        6,
        CompileShapeSafety::Shapeless,
    );
    node.outputs.push(OutRef {
        name: "y".to_string(),
        external: true,
        ctx_index: 0,
        otype,
    });
    node
}

#[test]
fn ep_dedicated_stream_is_decode_only() {
    assert!(use_dedicated_decode_stream(true, Some(1)));
    assert!(!use_dedicated_decode_stream(true, Some(2)));
    assert!(!use_dedicated_decode_stream(true, None));
    assert!(!use_dedicated_decode_stream(false, Some(1)));
}

#[test]
fn runtime_dedicated_stream_is_decode_only() {
    assert!(use_dedicated_decode_stream(true, Some(1)));
    assert!(!use_dedicated_decode_stream(true, Some(2)));
    assert!(!use_dedicated_decode_stream(true, None));
    assert!(!use_dedicated_decode_stream(false, Some(1)));
}

#[test]
fn ep_generation_reset_covers_decode_and_prefill() {
    let mut plan = Plan::new(Vec::new());
    reset_stable_cross_caches(&mut plan, Some(42));
    assert_eq!(plan.compiled.stable_generation_key, Some(42));
    assert_eq!(plan.prefill.stable_generation_key, Some(42));
}

#[test]
fn runtime_generation_reset_covers_decode_and_prefill() {
    let mut plan = Plan::new(Vec::new());
    plan.compiled.stable_cross_inputs = vec![1];
    plan.prefill.stable_cross_inputs = vec![2];
    plan.general.stable_cross_inputs = vec![3];
    reset_stable_cross_caches(&mut plan, Some(42));
    assert_eq!(plan.compiled.stable_generation_key, Some(42));
    assert_eq!(plan.prefill.stable_generation_key, Some(42));
    assert!(plan.compiled.stable_cross_inputs.is_empty());
    assert!(plan.prefill.stable_cross_inputs.is_empty());
    assert_eq!(plan.general.stable_generation_key, None);
    assert_eq!(plan.general.stable_cross_inputs, vec![3]);
}

#[test]
fn stream_selection_preserves_float64_plan_lifetime_policy() {
    let cpu_plan = Plan::new(vec![node_with_output(DOUBLE)]);
    assert!(cpu_plan.requires_cpu_stream);
    assert!(!cpu_plan.dedicated_decode_stream);
    assert_eq!(plan_stream(&cpu_plan, 1, 2), 2);

    let gpu_plan = Plan::new(vec![node_with_output(FLOAT)]);
    assert!(!gpu_plan.requires_cpu_stream);
    assert_eq!(plan_stream(&gpu_plan, 1, 2), 1);
}

#[test]
fn run_gate_rejects_foreign_thread_after_first_run() {
    let mut gate = RunGate::new();
    assert!(gate.enter(1, "ThreadId(1)").is_ok());
    assert!(gate.enter(2, "ThreadId(2)").is_err());
    assert!(gate.enter(1, "ThreadId(1)").is_ok());
    assert_eq!(
        gate.enter(2, "ThreadId(2)").err().unwrap(),
        "onnxruntime-mlx: this InferenceSession first ran on thread ThreadId(1) but Run() was \
         called from ThreadId(2). MLX eval is thread-affine — use one InferenceSession per thread \
         for concurrent inference."
    );
    assert_eq!(gate.owner.as_ref().unwrap().id, 1);
}

fn facts(seq_len: Option<i32>) -> RunFacts {
    RunFacts {
        seq_len,
        generation_key: None,
        self_past_len: None,
        batch_size: Some(1),
    }
}

fn compiled_plan() -> Plan {
    let mut plan = Plan::new(Vec::new());
    plan.compiled.enabled = true;
    plan.prefill.enabled = true;
    plan.general.enabled = true;
    plan
}

#[test]
fn paths_are_tried_in_order() {
    let mut plan = compiled_plan();
    plan.compiled.valid = true;
    let run = facts(Some(1));
    let (dedicated, attempt) = begin_compute(&mut plan, &run);
    assert!(!dedicated);
    assert_eq!(attempt.path, ComputePath::Decode);
    assert_eq!(attempt.cache, CacheState::Hit);
    let next = match conclude_attempt(&plan, &run, attempt, PathOutcome::Declined, true, &vec![]) {
        ComputeStep::Try(next) => next,
        _ => panic!("a declined path hands over"),
    };
    assert_eq!(next.path, ComputePath::General);
    assert_eq!(next.cache, CacheState::Miss);
    let next = match conclude_attempt(&plan, &run, next, PathOutcome::Declined, true, &vec![]) {
        ComputeStep::Try(next) => next,
        _ => panic!("a declined path hands over"),
    };
    assert_eq!(next.path, ComputePath::Eager);
    assert_eq!(next.cache, CacheState::Na);
    match conclude_attempt(&plan, &run, next, PathOutcome::Ran, true, &vec![]) {
        ComputeStep::Done { attempt, key } => {
            assert_eq!(attempt.path, ComputePath::Eager);
            assert_eq!(key, "");
        }
        _ => panic!("the last path ends the computation"),
    }
}

#[test]
fn prompts_take_the_prefill_path() {
    let mut plan = compiled_plan();
    let run = facts(Some(17));
    let (_, attempt) = begin_compute(&mut plan, &run);
    assert_eq!(attempt.path, ComputePath::Prefill);
    match conclude_attempt(&plan, &run, attempt, PathOutcome::Ran, false, &vec![]) {
        ComputeStep::Done { key, .. } => assert_eq!(key, "S17"),
        _ => panic!("the path ran"),
    }
    plan.prefill.enabled = false;
    let (_, attempt) = begin_compute(&mut plan, &run);
    assert_eq!(attempt.path, ComputePath::General);
    let (_, attempt) = begin_compute(&mut plan, &facts(None));
    assert_eq!(attempt.path, ComputePath::General);
}

#[test]
fn native_attention_decodes_single_batches_only() {
    let mut plan = compiled_plan();
    plan.native_attention_decode = true;
    let mut run = facts(Some(1));
    assert_eq!(begin_compute(&mut plan, &run).1.path, ComputePath::Decode);
    run.batch_size = Some(2);
    assert_eq!(begin_compute(&mut plan, &run).1.path, ComputePath::General);
    run.batch_size = None;
    assert_eq!(begin_compute(&mut plan, &run).1.path, ComputePath::General);
    plan.native_attention_decode = false;
    assert_eq!(begin_compute(&mut plan, &run).1.path, ComputePath::Decode);
}

#[test]
fn a_new_generation_drops_what_was_kept() {
    let mut plan = compiled_plan();
    plan.compiled.stable_cross_inputs = vec![1];
    plan.compiled.stable_generation_key = Some(5);
    let mut run = facts(Some(1));
    run.generation_key = Some(5);
    begin_compute(&mut plan, &run);
    assert_eq!(plan.compiled.stable_cross_inputs, vec![1]);
    run.self_past_len = Some(0);
    begin_compute(&mut plan, &run);
    assert!(plan.compiled.stable_cross_inputs.is_empty());
    run.self_past_len = Some(3);
    run.generation_key = Some(6);
    plan.prefill.stable_cross_inputs = vec![1];
    begin_compute(&mut plan, &run);
    assert!(plan.prefill.stable_cross_inputs.is_empty());
    assert_eq!(plan.prefill.stable_generation_key, Some(6));
}

#[test]
fn the_general_key_names_shapes_and_branches() {
    let shapes = vec![
        DynShape {
            index: 0,
            read: Some((1, vec![2, 3])),
        },
        DynShape {
            index: 1,
            read: None,
        },
        DynShape {
            index: 2,
            read: Some((7, vec![])),
        },
    ];
    assert_eq!(compute_shape_key(&shapes), "0:1:[2, 3];2:7:[]");
    let mut plan = compiled_plan();
    plan.general.control_flow_key = Some("if:1".to_string());
    let run = facts(None);
    let key_of = |plan: &Plan, active: bool| {
        let mut scratch = compiled_plan();
        let (_, attempt) = begin_compute(&mut scratch, &run);
        match conclude_attempt(plan, &run, attempt, PathOutcome::Ran, active, &shapes) {
            ComputeStep::Done { key, .. } => key,
            _ => panic!("the path ran"),
        }
    };
    assert_eq!(key_of(&plan, true), "0:1:[2, 3];2:7:[]|if:1");
    assert_eq!(key_of(&plan, false), "");
    plan.general.control_flow_key = Some(String::new());
    assert_eq!(key_of(&plan, true), "0:1:[2, 3];2:7:[]");
}

#[test]
fn failures_name_the_path() {
    let mut plan = compiled_plan();
    let run = facts(Some(1));
    let (_, attempt) = begin_compute(&mut plan, &run);
    let fail = |text: &str| match conclude_attempt(
        &plan,
        &run,
        attempt,
        PathOutcome::Failed(text.to_string()),
        false,
        &vec![],
    ) {
        ComputeStep::Fail(text) => text,
        _ => panic!("the path failed"),
    };
    assert_eq!(fail("boom"), "MLX compiled decode failed: boom");
    assert_eq!(fail("bo\0m"), "MLX compiled path failed");
    let mut plan = Plan::new(Vec::new());
    let (_, attempt) = begin_compute(&mut plan, &run);
    assert_eq!(attempt.path, ComputePath::Eager);
    match conclude_attempt(
        &plan,
        &run,
        attempt,
        PathOutcome::Failed("boom".to_string()),
        false,
        &vec![],
    ) {
        ComputeStep::Fail(text) => assert_eq!(text, "MLX subgraph failed: boom"),
        _ => panic!("the path failed"),
    }
}

#[test]
fn the_cache_is_judged_before_the_attempt() {
    assert_eq!(cache_state(true), CacheState::Hit);
    assert_eq!(cache_state(false), CacheState::Miss);
}

#[test]
fn handles_pass_through_their_owners() {
    assert_eq!(Stream::from_raw(4).as_raw(), 4);
    assert_eq!(Array::from_raw(5).as_raw(), 5);
    assert_eq!(Closure::from_raw(6).as_raw(), 6);
    let mut list = VectorArray::from_raw(7);
    assert_eq!(list.as_raw(), 7);
    *list.as_mut_ptr() = 8;
    assert_eq!(list.as_raw(), 8);
    assert_eq!(list.into_raw(), 8);
}

#[test]
fn a_handle_is_freed_once() {
    let mut array = Array::from_raw(5);
    assert_eq!(array.as_raw(), 5);
    assert_eq!(array.release(), Some(5));
    assert_eq!(array.as_raw(), 5);
    assert_eq!(array.release(), None);
    let mut stream = Stream::from_raw(4);
    assert_eq!((stream.release(), stream.release()), (Some(4), None));
    let mut closure = Closure::from_raw(6);
    assert_eq!((closure.release(), closure.release()), (Some(6), None));
    let mut list = VectorArray::from_raw(7);
    *list.as_mut_ptr() = 8;
    assert_eq!((list.release(), list.release()), (Some(8), None));
}

#[test]
fn mlx_calls_report_their_name() {
    assert_eq!(check_call(0, "mlx_eval"), Ok(()));
    assert_eq!(
        check_call(1, "mlx_eval"),
        Err("mlx_eval failed".to_string())
    );
    assert!(is_page_aligned(0));
    assert!(is_page_aligned(32768));
    assert!(!is_page_aligned(4096));
}

#[test]
fn reports_fit_a_c_string() {
    assert_eq!(report_text("plain", "other"), "plain");
    assert_eq!(report_text("pl\0in", "other"), "other");
    assert_eq!(report_text("", "other"), "");
}

#[test]
fn panics_are_described() {
    assert_eq!(panic_payload_message(Some("boom")), "boom");
    let detail = panic_payload_message(None);
    assert_eq!(detail, "unrecoverable panic (non-string payload)");
    assert_eq!(
        panic_log("compute", &detail),
        "caught a panic in compute: unrecoverable panic (non-string payload) — returning EP_FAIL; \
         ORT will fall back to the CPU EP (host process protected)."
    );
    assert_eq!(
        panic_status("compute", "boom"),
        "onnxruntime-mlx: recovered from a panic in compute: boom (host protected); the operation \
         failed"
    );
    assert_eq!(
        panic_status("compute", "bo\0m"),
        "onnxruntime-mlx: recovered from a panic"
    );
}

#[test]
fn factories_need_a_new_host_with_room() {
    assert_eq!(factory_refusal(true, 1), None);
    assert_eq!(
        factory_refusal(false, 0),
        Some("MLXExecutionProvider requires ONNX Runtime with ORT_API_VERSION >= 29")
    );
    assert_eq!(
        factory_refusal(true, 0),
        Some("MLXExecutionProvider needs room for one OrtEpFactory")
    );
}
