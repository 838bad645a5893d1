//! What events and counters carry.

use vstd::prelude::*;
use vstd::utf8::encode_utf8;

use crate::capture::{
    capture_refusal, has_word, is_busy_channel, names_idle, residency_sum, upper, word_at,
    Residency,
};
use crate::declined::declined_added;
use crate::engine::NodeDesc;
use crate::rejection::Rejection;
use crate::report::{pad_left, pad_right, summary_arg_map, SummaryFigures};
use crate::summary::Summary;
use crate::text::decimal;
use crate::trace::{CacheState, ComputePath};
use crate::trace_args::{
    composed_args, fallback_text, fast_args, joined, node_args, ArgValue,
};
use crate::trace_export::{run_on, spliced};
use crate::tracer::{
    compute_arg_map, gpu_samples, tracer_after_claim, CounterSample, CounterValue, SampleModel,
    TracerModel, ValueModel,
};
use crate::tracer_spans::{counter_elements, value_words};

verus! {

/// The event of a computation carries its path, how the cache fared, the number of nodes, the
/// partition, and the operators and names of the nodes; it carries the shape key exactly if there
/// is one.
pub proof fn law_compute_args(
    path: ComputePath,
    state: CacheState,
    nodes: Seq<NodeDesc>,
    partition: Seq<char>,
    key: Seq<char>,
)
    ensures
        ({
            let args = compute_arg_map(path, state, nodes, partition, key);
            &&& args["path"@] == ArgValue::Text(path.tag())
            &&& args["cache"@] == ArgValue::Text(state.tag())
            &&& args["nodes"@] == ArgValue::Number(nodes.len() as u64)
            &&& args["partition_id"@] == ArgValue::Text(partition)
            &&& args["ops"@] == ArgValue::Text(
                joined(Seq::new(nodes.len(), |i: int| nodes[i].op_type@), ","@),
            )
            &&& args["node_names"@] == ArgValue::Text(
                joined(Seq::new(nodes.len(), |i: int| nodes[i].name@), ","@),
            )
            &&& args.contains_key("shape_key"@) == (key.len() > 0)
            &&& key.len() > 0 ==> args["shape_key"@] == ArgValue::Text(key)
        }),
{
    reveal_strlit("path");
    reveal_strlit("cache");
    reveal_strlit("nodes");
    reveal_strlit("partition_id");
    reveal_strlit("ops");
    reveal_strlit("node_names");
    reveal_strlit("shape_key");
    assert("path"@.len() == 4 && "cache"@.len() == 5 && "nodes"@.len() == 5
        && "partition_id"@.len() == 12 && "ops"@.len() == 3 && "node_names"@.len() == 10
        && "shape_key"@.len() == 9);
    assert("cache"@[0] != "nodes"@[0]);
}

/// The event of a node that used a fused kernel says so, with the kernel; that of a node that was
/// composed says that it was not, with the reason. Both carry what every event of the node does.
pub proof fn law_path_args(node: NodeDesc, kernel: Seq<char>, reason: Seq<char>, key: Seq<char>)
    ensures
        fast_args(node, kernel)["optimized"@] == ArgValue::Flag(true),
        fast_args(node, kernel)["kernel"@] == ArgValue::Text(kernel),
        fast_args(node, kernel)["kernel_variant"@] == ArgValue::Text(kernel),
        !fast_args(node, kernel).contains_key("reason"@),
        composed_args(node, reason)["optimized"@] == ArgValue::Flag(false),
        composed_args(node, reason)["reason"@] == ArgValue::Text(reason),
        !composed_args(node, reason).contains_key("kernel"@),
        node_args(node).contains_key(key) ==> fast_args(node, kernel)[key] == node_args(node)[key]
            && composed_args(node, reason)[key] == node_args(node)[key],
{
    reveal_strlit("optimized");
    reveal_strlit("kernel");
    reveal_strlit("kernel_variant");
    reveal_strlit("kernel_variant_reason");
    reveal_strlit("reason");
    reveal_strlit("node_id");
    reveal_strlit("node");
    reveal_strlit("device");
    reveal_strlit("op_type");
    reveal_strlit("domain");
    assert("optimized"@.len() == 9 && "kernel"@.len() == 6 && "kernel_variant"@.len() == 14
        && "kernel_variant_reason"@.len() == 21 && "reason"@.len() == 6 && "node_id"@.len() == 7
        && "node"@.len() == 4 && "device"@.len() == 6 && "op_type"@.len() == 7 && "domain"@.len()
        == 6);
    assert("kernel"@[0] != "reason"@[0]);
    assert("kernel"@[0] != "device"@[0]);
    assert("kernel"@[0] != "domain"@[0]);
    assert("reason"@[0] != "device"@[0]);
    assert("reason"@[0] != "domain"@[0]);
    assert(!node_args(node).contains_key("reason"@));
    assert(!node_args(node).contains_key("kernel"@));
}

/// Added elements stand in the array behind those it held, before its end; the comma that the
/// first of them brings is dropped exactly where the array held nothing. A text that is no array
/// is left alone.
pub proof fn law_splicing(held: Seq<char>, tail: Seq<char>)
    requires
        held.len() > 0,
        held[0] == '[',
        tail.len() > 0,
        tail[0] == ',',
    ensures
        held.len() == 1 ==> spliced(held + "]"@, tail) == held + tail.skip(1) + "]"@,
        held.len() > 1 ==> spliced(held + "]"@, tail) == held + tail + "]"@,
        held.last() != ']' ==> spliced(held, tail) == held,
{
    reveal_strlit("]");
    let document = held + "]"@;
    assert(document.last() == ']');
    assert(document.drop_last() =~= held);
    reveal_with_fuel(encode_utf8, 3);
}

/// The letter as it is, or in lower case.
pub open spec fn spells(c: char, letter: char) -> bool {
    c == letter || c as u32 == letter as u32 + 32
}

/// A state is idle exactly if its name holds IDLE, OFF or DOWN somewhere, each letter in upper or
/// lower case.
pub proof fn law_idle_names(name: Seq<char>)
    ensures
        names_idle(name) <==> exists|at: int|
            0 <= at < name.len() && (#[trigger] idle_at(name, at)),
{
    reveal_strlit("IDLE");
    reveal_strlit("OFF");
    reveal_strlit("DOWN");
    assert forall|at: int| 0 <= at < name.len() && #[trigger] idle_at(name, at) implies names_idle(
        name,
    ) by {
        if at + 4 <= name.len() && spells(name[at], 'I') {
            let word = "IDLE"@;
            assert forall|k: int| 0 <= k < word.len() implies upper(name[at + k])
                == #[trigger] word[k] by {}
            assert(word_at(name, word, at));
        } else if at + 4 <= name.len() && spells(name[at], 'D') {
            let word = "DOWN"@;
            assert forall|k: int| 0 <= k < word.len() implies upper(name[at + k])
                == #[trigger] word[k] by {}
            assert(word_at(name, word, at));
        } else {
            let word = "OFF"@;
            assert forall|k: int| 0 <= k < word.len() implies upper(name[at + k])
                == #[trigger] word[k] by {}
            assert(word_at(name, word, at));
        }
    }
    if has_word(name, "IDLE"@) {
        let word = "IDLE"@;
        let at = choose|at: int| word_at(name, word, at);
        assert(upper(name[at + 0]) == word[0] && upper(name[at + 1]) == word[1] && upper(
            name[at + 2],
        ) == word[2] && upper(name[at + 3]) == word[3]);
        assert(idle_at(name, at));
    } else if has_word(name, "OFF"@) {
        let word = "OFF"@;
        let at = choose|at: int| word_at(name, word, at);
        assert(upper(name[at + 0]) == word[0] && upper(name[at + 1]) == word[1] && upper(
            name[at + 2],
        ) == word[2]);
        assert(idle_at(name, at));
    } else if has_word(name, "DOWN"@) {
        let word = "DOWN"@;
        let at = choose|at: int| word_at(name, word, at);
        assert(upper(name[at + 0]) == word[0] && upper(name[at + 1]) == word[1] && upper(
            name[at + 2],
        ) == word[2] && upper(name[at + 3]) == word[3]);
        assert(idle_at(name, at));
    }
}

/// A word for doing nothing stands there.
pub open spec fn idle_at(name: Seq<char>, at: int) -> bool {
    ||| at + 4 <= name.len() && spells(name[at], 'I') && spells(name[at + 1], 'D') && spells(
        name[at + 2],
        'L',
    ) && spells(name[at + 3], 'E')
    ||| at + 3 <= name.len() && spells(name[at], 'O') && spells(name[at + 1], 'F') && spells(
        name[at + 2],
        'F',
    )
    ||| at + 4 <= name.len() && spells(name[at], 'D') && spells(name[at + 1], 'O') && spells(
        name[at + 2],
        'W',
    ) && spells(name[at + 3], 'N')
}

/// One more state adds its time to the whole, and to the idle time exactly if it is idle; the idle
/// time and the time of the states that are not idle make up the whole.
pub proof fn law_residency(states: Seq<Residency>, state: Residency)
    ensures
        ({
            let n = states.len() as int;
            let more = states.push(state);
            &&& residency_sum(more, false, n + 1) - residency_sum(states, false, n) == state.time
            &&& names_idle(state.name@) ==> residency_sum(more, true, n + 1) - residency_sum(
                states,
                true,
                n,
            ) == state.time
            &&& !names_idle(state.name@) ==> residency_sum(more, true, n + 1) == residency_sum(
                states,
                true,
                n,
            )
        }),
        residency_sum(Seq::<Residency>::empty(), false, 0) == 0,
        residency_sum(Seq::<Residency>::empty(), true, 0) == 0,
{
    let n = states.len() as int;
    lemma_residency_kept(states, state, true, n);
    lemma_residency_kept(states, state, false, n);
}

proof fn lemma_residency_kept(states: Seq<Residency>, state: Residency, idle: bool, k: int)
    requires
        0 <= k <= states.len(),
    ensures
        residency_sum(states.push(state), idle, k) == residency_sum(states, idle, k),
    decreases k,
{
    if k > 0 {
        lemma_residency_kept(states, state, idle, k - 1);
    }
}

/// A padded text has the width if it was not longer, ends or begins with the text, and is filled
/// with one character.
pub proof fn law_padding(text: Seq<char>, fill: char, width: nat)
    ensures
        text.len() >= width ==> pad_left(text, fill, width) == text && pad_right(text, width)
            == text,
        text.len() < width ==> {
            let gap = width - text.len();
            &&& pad_left(text, fill, width).len() == width
            &&& pad_right(text, width).len() == width
            &&& pad_left(text, fill, width).skip(gap) == text
            &&& pad_right(text, width).take(text.len() as int) == text
            &&& forall|i: int|
                0 <= i < gap ==> #[trigger] pad_left(text, fill, width)[i] == fill
            &&& forall|i: int|
                text.len() <= i < width ==> #[trigger] pad_right(text, width)[i] == ' '
        },
{
}

/// The event that carries the digest has each count under its name.
pub proof fn law_summary_args(summary: Summary, figures: SummaryFigures)
    ensures
        ({
            let args = summary_arg_map(summary, figures);
            &&& args["claimed_nodes"@] == ArgValue::Number(summary.claimed_nodes)
            &&& args["total_nodes"@] == ArgValue::Number(summary.total_nodes)
            &&& args["claim_pct"@] == ArgValue::Text(figures.claim_pct@)
            &&& args["fused_subgraphs"@] == ArgValue::Number(summary.fused_subgraphs)
            &&& args["path_decode"@] == ArgValue::Number(summary.decode_runs)
            &&& args["path_prefill"@] == ArgValue::Number(summary.prefill_runs)
            &&& args["path_general"@] == ArgValue::Number(summary.general_runs)
            &&& args["path_eager"@] == ArgValue::Number(summary.eager_runs)
            &&& args["cache_hit"@] == ArgValue::Number(summary.cache_hit)
            &&& args["cache_miss"@] == ArgValue::Number(summary.cache_miss)
            &&& args["cache_retrace"@] == ArgValue::Number(summary.cache_retrace)
            &&& args["managed_wrap_bytes"@] == ArgValue::Number(summary.managed_wrap_bytes)
            &&& args["managed_wrap_aligned"@] == ArgValue::Number(summary.managed_wrap_aligned)
            &&& args["delta_copyout_bytes"@] == ArgValue::Number(summary.delta_copyout_bytes)
            &&& args["full_copyout_bytes"@] == ArgValue::Number(summary.full_copyout_bytes)
        }),
{
    reveal_strlit("claimed_nodes");
    reveal_strlit("total_nodes");
    reveal_strlit("claim_pct");
    reveal_strlit("fused_subgraphs");
    reveal_strlit("path_decode");
    reveal_strlit("path_prefill");
    reveal_strlit("path_general");
    reveal_strlit("path_eager");
    reveal_strlit("cache_hit");
    reveal_strlit("cache_miss");
    reveal_strlit("cache_retrace");
    reveal_strlit("managed_wrap_bytes");
    reveal_strlit("managed_wrap_aligned");
    reveal_strlit("delta_copyout_bytes");
    reveal_strlit("full_copyout_bytes");
    assert("claimed_nodes"@.len() == 13 && "total_nodes"@.len() == 11 && "claim_pct"@.len() == 9
        && "fused_subgraphs"@.len() == 15 && "path_decode"@.len() == 11 && "path_prefill"@.len()
        == 12 && "path_general"@.len() == 12 && "path_eager"@.len() == 10 && "cache_hit"@.len()
        == 9 && "cache_miss"@.len() == 10 && "cache_retrace"@.len() == 13
        && "managed_wrap_bytes"@.len() == 18 && "managed_wrap_aligned"@.len() == 20
        && "delta_copyout_bytes"@.len() == 19 && "full_copyout_bytes"@.len() == 18);
    assert("claimed_nodes"@[1] != "cache_retrace"@[1]);
    assert("total_nodes"@[0] != "path_decode"@[0]);
    assert("claim_pct"@[1] != "cache_hit"@[1]);
    assert("path_prefill"@[5] != "path_general"@[5]);
    assert("path_eager"@[0] != "cache_miss"@[0]);
    assert("managed_wrap_bytes"@[0] != "full_copyout_bytes"@[0]);
}

/// The counts of a digest are those of the summary, each under its path, state or kind.
pub proof fn law_counters_shown(summary: Summary)
    ensures
        summary@.getcap_calls == summary.getcap_calls,
        summary@.claimed_nodes == summary.claimed_nodes,
        summary@.total_nodes == summary.total_nodes,
        summary@.fused_subgraphs == summary.fused_subgraphs,
        summary@.runs[ComputePath::Decode] == summary.decode_runs,
        summary@.runs[ComputePath::Prefill] == summary.prefill_runs,
        summary@.runs[ComputePath::General] == summary.general_runs,
        summary@.runs[ComputePath::Eager] == summary.eager_runs,
        summary@.caches[CacheState::Hit] == summary.cache_hit,
        summary@.caches[CacheState::Miss] == summary.cache_miss,
        summary@.caches[CacheState::Retrace] == summary.cache_retrace,
        summary@.managed_wraps == summary.managed_wrap_count,
        summary@.managed_bytes == summary.managed_wrap_bytes,
        summary@.managed_aligned == summary.managed_wrap_aligned,
        summary@.copy_wraps == summary.copy_wrap_count,
        summary@.copy_bytes == summary.copy_wrap_bytes,
        summary@.delta_copies == summary.delta_copyout_count,
        summary@.delta_bytes == summary.delta_copyout_bytes,
        summary@.full_copies == summary.full_copyout_count,
        summary@.full_bytes == summary.full_copyout_bytes,
{
}

/// Of an operator that was declined before, the last reason that says something is kept; other
/// operators keep theirs.
pub proof fn law_last_reason_kept(
    map: Map<Seq<char>, (u64, Seq<char>)>,
    op: Seq<char>,
    count: nat,
    reason: Seq<char>,
    other: Seq<char>,
)
    ensures
        ({
            let next = declined_added(map, op, count, reason);
            &&& next.contains_key(op)
            &&& reason.len() > 0 ==> next[op].1 == reason
            &&& reason.len() == 0 && map.contains_key(op) ==> next[op].1 == map[op].1
            &&& reason.len() == 0 && !map.contains_key(op) ==> next[op].1.len() == 0
            &&& other != op ==> next.contains_key(other) == map.contains_key(other) && next[other]
                == map[other]
        }),
{
}

/// What is said of refused nodes begins with their number and the reason; the names follow if there
/// are any, with an ellipsis exactly if not all of them are listed.
pub proof fn law_fallback_words(count: nat, reason: Seq<char>, names: Seq<Seq<char>>)
    ensures
        ({
            let text = fallback_text(count, reason, names);
            let opening = "x"@ + decimal(count) + ": "@ + reason;
            &&& names.len() == 0 ==> text == opening
            &&& names.len() > 0 && names.len() >= count ==> text == opening + " — nodes: ["@
                + joined(names, ", "@) + "]"@
            &&& names.len() > 0 && names.len() < count ==> text == opening + " — nodes: ["@
                + joined(names, ", "@) + ", …]"@
        }),
{
    reveal_strlit("");
    reveal_strlit("]");
    reveal_strlit(", …");
    reveal_strlit(", …]");
    let opening = "x"@ + decimal(count) + ": "@ + reason + " — nodes: ["@ + joined(names, ", "@);
    assert(", …]"@ =~= ", …"@ + "]"@);
    assert(opening + ""@ =~= opening);
    assert(opening + ", …"@ + "]"@ =~= opening + (", …"@ + "]"@));
}

/// A claim is counted in the digest whether or not events are traced; three points are added if
/// they are: the claimed nodes, those that are left, and the groups, at the time of the claim.
pub proof fn law_claim_is_sampled(
    before: TracerModel,
    claimed: usize,
    total: usize,
    subgraphs: usize,
    rejected: Seq<Rejection>,
    now: u64,
)
    ensures
        ({
            let next = tracer_after_claim(before, claimed, total, subgraphs, rejected, now);
            let n = before.counters.len() as int;
            &&& next == (TracerModel {
                digest: next.digest,
                used: next.used,
                counters: next.counters,
                ..before
            })
            &&& next.digest.claimed_nodes == before.digest.claimed_nodes + claimed
            &&& next.digest.total_nodes == before.digest.total_nodes + total
            &&& !before.enabled ==> next.counters == before.counters
            &&& before.enabled ==> {
                &&& next.counters.len() == n + 3
                &&& next.counters.take(n) == before.counters
                &&& is_whole_point(next.counters[n], "mlx.claimed_nodes"@, "nodes"@, claimed, now)
                &&& is_whole_point(
                    next.counters[n + 1],
                    "mlx.unclaimed_nodes"@,
                    "nodes"@,
                    if claimed < total {
                        (total - claimed) as usize
                    } else {
                        0
                    },
                    now,
                )
                &&& is_whole_point(
                    next.counters[n + 2],
                    "mlx.fused_subgraphs"@,
                    "subgraphs"@,
                    subgraphs,
                    now,
                )
            }
        }),
{
}

/// A point with that value, under that track and key, at that time.
pub open spec fn is_whole_point(
    point: SampleModel,
    track: Seq<char>,
    key: Seq<char>,
    value: usize,
    now: u64,
) -> bool {
    &&& point.track == track
    &&& point.key == key
    &&& point.value is Whole
    &&& point.value->Whole_0 == value
    &&& point.ts == now
}

/// A look at the GPU adds how much memory it holds; its share if there is a recommended amount; how
/// busy it is if that is known; and its frequency if that is known as well. What was there before
/// stays.
pub proof fn law_gpu_is_sampled(
    counters: Seq<SampleModel>,
    allocated: u64,
    recommended: u64,
    memory_share: Seq<char>,
    busy_share: Option<&str>,
    megahertz: Option<&str>,
    now: u64,
)
    ensures
        ({
            let next = gpu_samples(
                counters,
                allocated,
                recommended,
                memory_share,
                busy_share,
                megahertz,
                now,
            );
            let n = counters.len() as int;
            let busy_at = if recommended > 0 {
                n + 2
            } else {
                n + 1
            };
            &&& next.take(n) == counters
            &&& next[n].track == "mlx.gpu_mem_bytes"@
            &&& next[n].value == ValueModel::Whole(allocated)
            &&& recommended > 0 ==> next[n + 1].track == "mlx.gpu_mem_pct"@ && next[n + 1].value
                == ValueModel::Written(memory_share)
            &&& busy_share matches Some(share) ==> next[busy_at].track == "mlx.gpu_util_pct"@
                && next[busy_at].value == ValueModel::Written(share@)
            &&& busy_share is Some && megahertz is Some ==> next[busy_at + 1].track
                == "mlx.gpu_freq_mhz"@ && next[busy_at + 1].value == ValueModel::Written(
                megahertz->0@,
            )
            &&& next.len() == busy_at + (if busy_share is None {
                0int
            } else if megahertz is None {
                1
            } else {
                2
            })
            &&& forall|i: int| n <= i < next.len() ==> (#[trigger] next[i]).ts == now
        }),
{
}

/// A capture that is due is made exactly if Metal is available and its capture layer is on.
pub proof fn law_capture_needs_metal(path: Seq<char>, available: bool, layer_on: bool)
    ensures
        capture_refusal(path, available, layer_on) is None <==> available && layer_on,
{
}

/// Only the channel of the GPU's power states counts, and only if it has states.
pub proof fn law_busy_channel(group: Seq<char>, channel: Seq<char>, states: nat)
    ensures
        is_busy_channel(group, channel, states) <==> group == "GPU Stats"@ && channel == "GPUPH"@
            && states > 0,
{
}

/// A number with decimals is shown as it was written. A whole number is shown in decimal as long as
/// floating point holds every whole number up to it, and beyond that as it was written.
pub proof fn law_counter_values(value: CounterValue, written: Seq<char>)
    ensures
        match value {
            CounterValue::Written(text) => value_words(value, written) == text@,
            CounterValue::Whole(number) => {
                &&& number <= 0x20_0000_0000_0000 ==> value_words(value, written) == decimal(
                    number as nat,
                )
                &&& number > 0x20_0000_0000_0000 ==> value_words(value, written) == written
            },
        },
{
}

/// Every counter gives one element, in order, with its own track, key, value and time.
pub proof fn law_counters_exported(
    counters: Seq<CounterSample>,
    written: Seq<Seq<char>>,
    pid: u64,
    i: int,
)
    requires
        0 <= i < counters.len(),
    ensures
        counter_elements(counters, written, pid).len() == counters.len(),
        counter_elements(counters, written, pid)[i] == ",{\"name\":\""@ + counters[i].track@
            + "\",\"cat\":\"gpu_counter\",\"ph\":\"C\",\"ts\":"@ + decimal(
            counters[i].ts as nat,
        ) + ",\"pid\":"@ + decimal(pid as nat) + ",\"tid\":0,\"args\":{\""@ + counters[i].key@
            + "\":"@ + value_words(counters[i].value, written[i]) + "}}"@,
{
}

/// Texts in a row follow each other in order, with nothing between them.
pub proof fn law_texts_in_a_row(list: Seq<Seq<char>>, next: Seq<char>)
    ensures
        run_on(list.push(next)) == run_on(list) + next,
        run_on(Seq::empty()).len() == 0,
{
    assert(list.push(next).drop_last() =~= list);
}

} // verus!
