//! The arguments of trace events, built with `onnx_runtime_tracer`.

use vstd::prelude::*;
use vstd::string::StringExecFns;

use onnx_runtime_tracer::Args;

use crate::engine::NodeDesc;
use crate::rejection::{texts, Rejection};
use crate::text::{decimal, decimal_text, join2, join3, same_text};

verus! {

/// `onnx_runtime_tracer::Args`, opaque to the proofs; [`args_state`] says what it holds.
#[verifier::external_type_specification]
#[verifier::external_body]
pub struct ExArgs(onnx_runtime_tracer::Args);

/// The value of an argument.
pub ghost enum ArgValue {
    Number(u64),
    Text(Seq<char>),
    Flag(bool),
}

/// The arguments by key.
pub uninterp spec fn args_state(args: onnx_runtime_tracer::Args) -> Map<Seq<char>, ArgValue>;

pub open spec fn no_args() -> Map<Seq<char>, ArgValue> {
    Map::empty()
}

/// `Args::new`: no arguments.
#[verifier::external_body]
pub(crate) fn new_args() -> (args: Args)
    ensures
        args_state(args) == no_args(),
{
    Args::new()
}

/// `Args::with` at a number: sets the key, whatever it held.
#[verifier::external_body]
pub(crate) fn with_number(args: Args, key: &str, value: u64) -> (more: Args)
    ensures
        args_state(more) == args_state(args).insert(key@, ArgValue::Number(value)),
{
    args.with(key, value)
}

/// `Args::with` at a text: sets the key, whatever it held.
#[verifier::external_body]
pub(crate) fn with_text(args: Args, key: &str, value: &str) -> (more: Args)
    ensures
        args_state(more) == args_state(args).insert(key@, ArgValue::Text(value@)),
{
    args.with(key, value)
}

/// `Args::with` at a truth value: sets the key, whatever it held.
#[verifier::external_body]
pub(crate) fn with_flag(args: Args, key: &str, value: bool) -> (more: Args)
    ensures
        args_state(more) == args_state(args).insert(key@, ArgValue::Flag(value)),
{
    args.with(key, value)
}

/// The domain of the standard operators, under either of its names.
pub open spec fn standard_domain(domain: Seq<char>) -> bool {
    domain.len() == 0 || domain == "ai.onnx"@
}

/// Whether a domain is that of the standard operators.
pub fn is_default_domain(domain: &str) -> (standard: bool)
    ensures
        standard == standard_domain(domain@),
{
    domain.is_empty() || same_text(domain, "ai.onnx")
}

/// The arguments that every event of a node carries. The domain is left out where it is the
/// standard one.
pub open spec fn node_args(node: NodeDesc) -> Map<Seq<char>, ArgValue> {
    let common = no_args().insert(
        "node_id"@,
        ArgValue::Number(node.node_id as u64),
    ).insert("node"@, ArgValue::Text(node.name@)).insert(
        "device"@,
        ArgValue::Text("metal"@),
    ).insert("op_type"@, ArgValue::Text(node.op_type@));
    if standard_domain(node.domain@) {
        common
    } else {
        common.insert("domain"@, ArgValue::Text(node.domain@))
    }
}

/// The arguments that every event of a node carries.
pub fn standard_op_args(node: &NodeDesc) -> (args: Args)
    ensures
        args_state(args) == node_args(*node),
{
    let args: Args = with_number(new_args(), "node_id", node.node_id as u64);
    let args: Args = with_text(args, "node", node.name.as_str());
    let args: Args = with_text(args, "device", "metal");
    let args: Args = with_text(args, "op_type", node.op_type.as_str());
    if is_default_domain(node.domain.as_str()) {
        args
    } else {
        with_text(args, "domain", node.domain.as_str())
    }
}

/// The arguments of the span that covers the translation of a node.
pub fn op_span_args(node: &NodeDesc, inputs: usize, outputs: usize) -> (args: Args)
    ensures
        args_state(args) == node_args(*node).insert(
            "inputs"@,
            ArgValue::Number(inputs as u64),
        ).insert("outputs"@, ArgValue::Number(outputs as u64)),
{
    let args: Args = with_number(standard_op_args(node), "inputs", inputs as u64);
    with_number(args, "outputs", outputs as u64)
}

/// The arguments of a node that used a fused kernel.
pub open spec fn fast_args(node: NodeDesc, kernel: Seq<char>) -> Map<Seq<char>, ArgValue> {
    node_args(node).insert("optimized"@, ArgValue::Flag(true)).insert(
        "kernel"@,
        ArgValue::Text(kernel),
    ).insert("kernel_variant"@, ArgValue::Text(kernel)).insert(
        "kernel_variant_reason"@,
        ArgValue::Text("MLX handler selected fused fast path"@),
    )
}

/// The arguments of a node that was composed from simpler kernels though a fused one exists.
pub open spec fn composed_args(node: NodeDesc, reason: Seq<char>) -> Map<Seq<char>, ArgValue> {
    node_args(node).insert("optimized"@, ArgValue::Flag(false)).insert(
        "reason"@,
        ArgValue::Text(reason),
    )
}

pub(crate) fn fast_path_args(node: &NodeDesc, kernel: &str) -> (args: Args)
    ensures
        args_state(args) == fast_args(*node, kernel@),
{
    let args: Args = with_flag(standard_op_args(node), "optimized", true);
    let args: Args = with_text(args, "kernel", kernel);
    let args: Args = with_text(args, "kernel_variant", kernel);
    with_text(args, "kernel_variant_reason", "MLX handler selected fused fast path")
}

pub(crate) fn composed_path_args(node: &NodeDesc, reason: &str) -> (args: Args)
    ensures
        args_state(args) == composed_args(*node, reason@),
{
    let args: Args = with_flag(standard_op_args(node), "optimized", false);
    with_text(args, "reason", reason)
}

/// The shapes and sizes of a node's tensors.
pub struct OpMeta {
    pub output_shapes: String,
    pub input_shapes: String,
    pub dtype: String,
    pub elements: u64,
    pub bytes: u64,
}

/// The arguments of the detailed span of a node.
pub fn op_meta_args(node: &NodeDesc, meta: &OpMeta) -> (args: Args)
    ensures
        args_state(args) == node_args(*node).insert(
            "output_shapes"@,
            ArgValue::Text(meta.output_shapes@),
        ).insert("input_shapes"@, ArgValue::Text(meta.input_shapes@)).insert(
            "dtype"@,
            ArgValue::Text(meta.dtype@),
        ).insert("elements"@, ArgValue::Number(meta.elements)).insert(
            "bytes"@,
            ArgValue::Number(meta.bytes),
        ),
{
    let args: Args = with_text(
        standard_op_args(node),
        "output_shapes",
        meta.output_shapes.as_str(),
    );
    let args: Args = with_text(args, "input_shapes", meta.input_shapes.as_str());
    let args: Args = with_text(args, "dtype", meta.dtype.as_str());
    let args: Args = with_number(args, "elements", meta.elements);
    with_number(args, "bytes", meta.bytes)
}

/// Texts with a separator between them.
pub open spec fn joined(list: Seq<Seq<char>>, separator: Seq<char>) -> Seq<char>
    decreases list.len(),
{
    if list.len() == 0 {
        Seq::empty()
    } else if list.len() == 1 {
        list[0]
    } else {
        joined(list.drop_last(), separator) + separator + list.last()
    }
}

/// Joins texts with a separator.
pub fn join_all(list: &Vec<String>, separator: &str) -> (text: String)
    ensures
        text@ == joined(texts(list@), separator@),
{
    let ghost all = texts(list@);
    let mut text: String = String::new();
    let mut at: usize = 0;
    proof {
        assert(all.take(0) =~= Seq::<Seq<char>>::empty());
    }
    while at < list.len()
        invariant
            at <= list@.len(),
            all == texts(list@),
            text@ == joined(all.take(at as int), separator@),
        decreases list@.len() - at,
    {
        proof {
            assert(all.take(at + 1).drop_last() =~= all.take(at as int));
            assert(all.take(at + 1).last() == list@[at as int]@);
        }
        if at == 0 {
            text = list[0].clone();
            assert(all.take(1)[0] == all[0]);
        } else {
            text.append(separator);
            text.append(list[at].as_str());
        }
        at = at + 1;
    }
    proof {
        assert(all.take(list@.len() as int) =~= all);
    }
    text
}

/// What is said of the refused nodes of one operator: how many, why, and which; the list of names
/// ends in an ellipsis if it is not complete.
pub open spec fn fallback_text(
    count: nat,
    reason: Seq<char>,
    names: Seq<Seq<char>>,
) -> Seq<char> {
    let base = "x"@ + decimal(count) + ": "@ + reason;
    if names.len() == 0 {
        base
    } else {
        base + " — nodes: ["@ + joined(names, ", "@) + (if count > names.len() {
            ", …"@
        } else {
            ""@
        }) + "]"@
    }
}

fn fallback_words(rejection: &Rejection) -> (text: String)
    ensures
        text@ == fallback_text(
            rejection.count as nat,
            rejection.reason@,
            texts(rejection.names@),
        ),
{
    let mut text: String = join3("x", decimal_text(rejection.count as u64).as_str(), ": ");
    text.append(rejection.reason.as_str());
    if rejection.names.len() > 0 {
        text.append(" — nodes: [");
        text.append(join_all(&rejection.names, ", ").as_str());
        let more: &str = if rejection.count > rejection.names.len() {
            ", …"
        } else {
            ""
        };
        text.append(more);
        text.append("]");
    }
    text
}

/// The arguments with those of the first `k` refused operators.
pub open spec fn with_fallbacks(
    args: Map<Seq<char>, ArgValue>,
    rejected: Seq<Rejection>,
    k: int,
) -> Map<Seq<char>, ArgValue>
    decreases k,
{
    if k <= 0 {
        args
    } else {
        let entry = rejected[k - 1];
        with_fallbacks(args, rejected, k - 1).insert(
            "fallback_"@ + entry.op@,
            ArgValue::Text(
                fallback_text(entry.count as nat, entry.reason@, texts(entry.names@)),
            ),
        )
    }
}

/// The arguments of a claim.
pub open spec fn claim_arg_map(
    claimed: usize,
    total: usize,
    subgraphs: usize,
    rejected: Seq<Rejection>,
) -> Map<Seq<char>, ArgValue> {
    with_fallbacks(
        no_args().insert(
            "claimed"@,
            ArgValue::Number(claimed as u64),
        ).insert("total"@, ArgValue::Number(total as u64)).insert(
            "unclaimed"@,
            ArgValue::Number(unclaimed(claimed, total)),
        ).insert("fused_subgraphs"@, ArgValue::Number(subgraphs as u64)),
        rejected,
        rejected.len() as int,
    )
}

/// The nodes that were not claimed.
pub open spec fn unclaimed(claimed: usize, total: usize) -> u64 {
    if claimed < total {
        (total - claimed) as u64
    } else {
        0
    }
}

pub(crate) fn count_unclaimed(claimed: usize, total: usize) -> (count: u64)
    ensures
        count == unclaimed(claimed, total),
{
    if claimed < total {
        (total - claimed) as u64
    } else {
        0
    }
}

/// The arguments of a claim.
pub(crate) fn claim_args(
    claimed: usize,
    total: usize,
    subgraphs: usize,
    rejected: &Vec<Rejection>,
) -> (args: Args)
    ensures
        args_state(args) == claim_arg_map(claimed, total, subgraphs, rejected@),
{
    let args: Args = with_number(new_args(), "claimed", claimed as u64);
    let args: Args = with_number(args, "total", total as u64);
    let args: Args = with_number(args, "unclaimed", count_unclaimed(claimed, total));
    let mut args: Args = with_number(args, "fused_subgraphs", subgraphs as u64);
    let ghost base = args_state(args);
    let mut at: usize = 0;
    while at < rejected.len()
        invariant
            at <= rejected@.len(),
            args_state(args) == with_fallbacks(base, rejected@, at as int),
        decreases rejected@.len() - at,
    {
        let key: String = join2("fallback_", rejected[at].op.as_str());
        let words: String = fallback_words(&rejected[at]);
        args = with_text(args, key.as_str(), words.as_str());
        at = at + 1;
    }
    args
}

} // verus!
