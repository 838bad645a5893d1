//! What each call adds to the digest of a session, and what it leaves alone.

use vstd::prelude::*;

use crate::engine::NodeDesc;
use crate::rejection::Rejection;
use crate::refusal_laws::{law_rejections_add_up, nodes_of_op};
use crate::summary::{after_claim, after_compute, after_copyout, key_seen, Digest};
use crate::tables::time_added;
use crate::trace::{CacheState, ComputePath};
use crate::trace_args::{claim_arg_map, fallback_text, node_args, with_fallbacks, ArgValue};

verus! {

/// One more, or none.
pub open spec fn one_if(condition: bool) -> int {
    if condition {
        1
    } else {
        0
    }
}

/// Every path and every state of the cache has a count.
pub open spec fn counts_all(digest: Digest) -> bool {
    &&& forall|path: ComputePath| #[trigger] digest.runs.contains_key(path)
    &&& forall|state: CacheState| #[trigger] digest.caches.contains_key(state)
}

/// A computation is counted once for its path, and once for how the cache fared: as a retrace where
/// it was reported as a hit under a key that its path and partition had not seen, as reported
/// otherwise, and not at all where there is no cache. Its key, if it has one, is seen from then on,
/// on that path and partition only. Nothing else changes.
pub proof fn law_compute_is_counted(
    digest: Digest,
    path: ComputePath,
    cache: CacheState,
    partition: Seq<char>,
    key: Seq<char>,
)
    requires
        counts_all(digest),
    ensures
        ({
            let next = after_compute(digest, path, cache, partition, key);
            let here = path.tag() + ":"@ + partition;
            let again = cache == CacheState::Hit && key.len() > 0 && !key_seen(
                digest.seen,
                here,
                key,
            );
            &&& forall|p: ComputePath|
                #[trigger] next.runs[p] == digest.runs[p] + one_if(p == path)
            &&& next.caches[CacheState::Hit] == digest.caches[CacheState::Hit] + one_if(
                cache == CacheState::Hit && !again,
            )
            &&& next.caches[CacheState::Miss] == digest.caches[CacheState::Miss] + one_if(
                cache == CacheState::Miss,
            )
            &&& next.caches[CacheState::Retrace] == digest.caches[CacheState::Retrace] + one_if(
                cache == CacheState::Retrace || again,
            )
            &&& next.caches[CacheState::Na] == digest.caches[CacheState::Na]
            &&& forall|scope: Seq<char>, other: Seq<char>| #[trigger]
                key_seen(next.seen, scope, other) == (key_seen(digest.seen, scope, other) || (
                key.len() > 0 && scope == here && other == key))
            &&& counts_all(next)
            &&& next == (Digest { runs: next.runs, caches: next.caches, seen: next.seen, ..digest })
        }),
{
}

/// A claim is counted once, with its claimed nodes, all its nodes and its groups; the nodes of each
/// refused operator are added to that operator. Nothing else changes.
pub proof fn law_claim_is_counted(
    digest: Digest,
    claimed: usize,
    total: usize,
    subgraphs: usize,
    rejected: Seq<Rejection>,
    op: Seq<char>,
)
    requires
        (if digest.declined.contains_key(op) {
            digest.declined[op].0 as int
        } else {
            0
        }) + nodes_of_op(rejected, op, rejected.len() as int) <= u64::MAX,
    ensures
        ({
            let next = after_claim(digest, claimed, total, subgraphs, rejected);
            let known = if digest.declined.contains_key(op) {
                digest.declined[op].0 as int
            } else {
                0
            };
            &&& next.getcap_calls == digest.getcap_calls + 1
            &&& next.claimed_nodes == digest.claimed_nodes + claimed
            &&& next.total_nodes == digest.total_nodes + total
            &&& next.fused_subgraphs == digest.fused_subgraphs + subgraphs
            &&& next.declined.contains_key(op) ==> next.declined[op].0 == known + nodes_of_op(
                rejected,
                op,
                rejected.len() as int,
            )
            &&& next.declined.contains_key(op) == (digest.declined.contains_key(op) || exists|
                j: int,
            |
                0 <= j < rejected.len() && (#[trigger] rejected[j]).op@ == op)
            &&& next == (Digest {
                getcap_calls: next.getcap_calls,
                claimed_nodes: next.claimed_nodes,
                total_nodes: next.total_nodes,
                fused_subgraphs: next.fused_subgraphs,
                declined: next.declined,
                ..digest
            })
        }),
{
    law_rejections_add_up(digest.declined, rejected, rejected.len() as int, op);
}

/// A call adds its time and one call to its name, and leaves every other name alone.
pub proof fn law_time_is_added(
    map: Map<Seq<char>, (u64, u64)>,
    name: Seq<char>,
    micros: u64,
    other: Seq<char>,
)
    requires
        map.contains_key(name) ==> map[name].0 + micros <= u64::MAX && map[name].1 < u64::MAX,
    ensures
        ({
            let next = time_added(map, name, micros);
            &&& next.contains_key(name)
            &&& map.contains_key(name) ==> next[name].0 == map[name].0 + micros && next[name].1
                == map[name].1 + 1
            &&& !map.contains_key(name) ==> next[name].0 == micros && next[name].1 == 1
            &&& other != name ==> next.contains_key(other) == map.contains_key(other)
                && next[other] == map[other]
        }),
{
}

/// Bytes that are copied out are counted once, as a change or as a whole but never as both, with
/// their number; the time goes to the copying phase. Nothing else changes.
pub proof fn law_copyout_is_counted(digest: Digest, delta: bool, bytes: u64, micros: u64)
    ensures
        ({
            let next = after_copyout(digest, delta, bytes, micros);
            &&& next.delta_copies == digest.delta_copies + one_if(delta)
            &&& next.full_copies == digest.full_copies + one_if(!delta)
            &&& next.delta_bytes == digest.delta_bytes + (if delta {
                bytes as int
            } else {
                0
            })
            &&& next.full_bytes == digest.full_bytes + (if delta {
                0
            } else {
                bytes as int
            })
            &&& next.phases == time_added(digest.phases, "copy"@, micros)
            &&& next == (Digest {
                delta_copies: next.delta_copies,
                full_copies: next.full_copies,
                delta_bytes: next.delta_bytes,
                full_bytes: next.full_bytes,
                phases: next.phases,
                ..digest
            })
        }),
{
}

/// Every event of a node carries its number, its name, the device and its operator, and its domain
/// exactly where that is not the standard one, under either of its names.
pub proof fn law_node_args(node: NodeDesc, key: Seq<char>)
    ensures
        node_args(node).contains_key(key) <==> {
            ||| key == "node_id"@
            ||| key == "node"@
            ||| key == "device"@
            ||| key == "op_type"@
            ||| key == "domain"@ && node.domain@ != ""@ && node.domain@ != "ai.onnx"@
        },
        node_args(node)["node_id"@] == ArgValue::Number(node.node_id as u64),
        node_args(node)["node"@] == ArgValue::Text(node.name@),
        node_args(node)["device"@] == ArgValue::Text("metal"@),
        node_args(node)["op_type"@] == ArgValue::Text(node.op_type@),
        node.domain@ != ""@ && node.domain@ != "ai.onnx"@ ==> node_args(node)["domain"@]
            == ArgValue::Text(node.domain@),
{
    reveal_strlit("node_id");
    reveal_strlit("node");
    reveal_strlit("device");
    reveal_strlit("op_type");
    reveal_strlit("domain");
    reveal_strlit("");
    assert("node_id"@.len() == 7 && "node"@.len() == 4);
    assert("device"@[0] != "domain"@[0] || "device"@[1] != "domain"@[1]);
    assert("op_type"@[0] != "node_id"@[0]);
    if node.domain@.len() == 0 {
        assert(node.domain@ =~= ""@);
    }
}

proof fn lemma_fallbacks(
    args: Map<Seq<char>, ArgValue>,
    rejected: Seq<Rejection>,
    k: int,
    key: Seq<char>,
)
    requires
        0 <= k <= rejected.len(),
    ensures
        ({
            let more = with_fallbacks(args, rejected, k);
            &&& (forall|j: int| 0 <= j < k ==> "fallback_"@ + (#[trigger] rejected[j]).op@ != key)
                ==> more.contains_key(key) == args.contains_key(key) && more[key] == args[key]
            &&& forall|j: int|
                0 <= j < k && "fallback_"@ + (#[trigger] rejected[j]).op@ == key && (forall|i: int|
                    j < i < k ==> "fallback_"@ + (#[trigger] rejected[i]).op@ != key)
                    ==> more.contains_key(key) && more[key] == ArgValue::Text(
                    fallback_text(
                        rejected[j].count as nat,
                        rejected[j].reason@,
                        crate::rejection::texts(rejected[j].names@),
                    ),
                )
        }),
    decreases k,
{
    if k > 0 {
        lemma_fallbacks(args, rejected, k - 1, key);
        let last = rejected[k - 1];
    }
}

/// A claim tells how many nodes it claimed, how many there are, how many are left, and how many
/// groups it made; and for every refused operator, under a key of its own, what is said of it.
pub proof fn law_claim_args(
    claimed: usize,
    total: usize,
    subgraphs: usize,
    rejected: Seq<Rejection>,
    j: int,
)
    requires
        forall|i: int, k: int|
            0 <= i < k < rejected.len() ==> (#[trigger] rejected[i]).op@
                != (#[trigger] rejected[k]).op@,
    ensures
        ({
            let args = claim_arg_map(claimed, total, subgraphs, rejected);
            &&& args["claimed"@] == ArgValue::Number(claimed as u64)
            &&& args["total"@] == ArgValue::Number(total as u64)
            &&& args["fused_subgraphs"@] == ArgValue::Number(subgraphs as u64)
            &&& claimed <= total ==> args["unclaimed"@] == ArgValue::Number(
                (total - claimed) as u64,
            )
            &&& claimed > total ==> args["unclaimed"@] == ArgValue::Number(0)
            &&& 0 <= j < rejected.len() ==> args["fallback_"@ + rejected[j].op@]
                == ArgValue::Text(
                fallback_text(
                    rejected[j].count as nat,
                    rejected[j].reason@,
                    crate::rejection::texts(rejected[j].names@),
                ),
            )
        }),
{
    reveal_strlit("claimed");
    reveal_strlit("total");
    reveal_strlit("unclaimed");
    reveal_strlit("fused_subgraphs");
    reveal_strlit("fallback_");
    let n = rejected.len() as int;
    let base = crate::trace_args::no_args().insert(
        "claimed"@,
        ArgValue::Number(claimed as u64),
    ).insert("total"@, ArgValue::Number(total as u64)).insert(
        "unclaimed"@,
        ArgValue::Number(crate::trace_args::unclaimed(claimed, total)),
    ).insert("fused_subgraphs"@, ArgValue::Number(subgraphs as u64));
    assert forall|i: int| 0 <= i < n implies {
        let key = "fallback_"@ + (#[trigger] rejected[i]).op@;
        &&& key != "claimed"@
        &&& key != "total"@
        &&& key != "unclaimed"@
        &&& key != "fused_subgraphs"@
    } by {
        let key = "fallback_"@ + rejected[i].op@;
        assert(key[0] == "fallback_"@[0]);
        assert(key[1] == "fallback_"@[1]);
    }
    lemma_fallbacks(base, rejected, n, "claimed"@);
    lemma_fallbacks(base, rejected, n, "total"@);
    lemma_fallbacks(base, rejected, n, "unclaimed"@);
    lemma_fallbacks(base, rejected, n, "fused_subgraphs"@);
    assert("claimed"@.len() == 7 && "total"@.len() == 5 && "unclaimed"@.len() == 9
        && "fused_subgraphs"@.len() == 15);
    if 0 <= j < n {
        let key = "fallback_"@ + rejected[j].op@;
        lemma_fallbacks(base, rejected, n, key);
        assert forall|i: int| j < i < n implies "fallback_"@ + (#[trigger] rejected[i]).op@ != key by {
            let other = "fallback_"@ + rejected[i].op@;
            if other == key {
                assert(other.skip(9) =~= rejected[i].op@);
                assert(key.skip(9) =~= rejected[j].op@);
            }
        }
    }
}

} // verus!
