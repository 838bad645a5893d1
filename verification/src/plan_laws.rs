//! What holds of every plan.

use vstd::prelude::*;

use crate::engine::{InitModel, NodeModel, Src, TensorModel};
use crate::ir::{ir_feeds, ir_order, ir_ready};
use crate::plan_builder::{
    has_order, is_formal, order_of, out_of, plan_graph, plan_node, plan_nodes, resolve, scope_of,
    PlanEnv,
};
use crate::shape_const::{lemma_mark_nodes, mark_nodes};
use crate::sidecars::SideModel;
use crate::snapshot::{shot_of, OrtGraphSnapshot, Shot};
use crate::snapshot_laws::mirrors;

verus! {

pub proof fn lemma_plan_nodes(
    snapshot: OrtGraphSnapshot,
    side: SideModel,
    env: PlanEnv,
    scope: Map<Seq<char>, InitModel>,
    order: Seq<u32>,
)
    requires
        plan_nodes(snapshot, side, env, scope, order) is Ok,
    ensures
        plan_nodes(snapshot, side, env, scope, order)->Ok_0.len() == order.len(),
        forall|i: int|
            0 <= i < order.len() ==> plan_node(snapshot, side, env, scope, order[i]) == Ok::<
                NodeModel,
                Seq<char>,
            >(#[trigger] plan_nodes(snapshot, side, env, scope, order)->Ok_0[i]),
    decreases order.len(),
{
    if order.len() > 0 {
        let front = order.drop_last();
        lemma_plan_nodes(snapshot, side, env, scope, front);
        let all = plan_nodes(snapshot, side, env, scope, order)->Ok_0;
        let before = plan_nodes(snapshot, side, env, scope, front)->Ok_0;
        assert forall|i: int| 0 <= i < order.len() implies plan_node(
            snapshot,
            side,
            env,
            scope,
            order[i],
        ) == Ok::<NodeModel, Seq<char>>(#[trigger] all[i]) by {
            if i < front.len() {
                assert(front[i] == order[i]);
                assert(all[i] == before[i]);
            }
        }
    }
}

/// A plan holds every node of the graph once, in the one topological order of the graph.
pub proof fn law_plan_order(snapshot: OrtGraphSnapshot, side: SideModel, env: PlanEnv)
    requires
        plan_graph(snapshot, side, env) is Ok,
    ensures
        ({
            let shot = shot_of(snapshot);
            let nodes = plan_graph(snapshot, side, env)->Ok_0;
            let order = order_of(shot.ir);
            &&& ir_order(shot.ir, order)
            &&& nodes.len() == order.len()
            &&& forall|i: int|
                0 <= i < order.len() ==> {
                    let node = shot.nodes[order[i] as int];
                    &&& (#[trigger] nodes[i]).op_type == node.op_type
                    &&& nodes[i].domain == node.domain
                    &&& nodes[i].since_version == node.since_version
                    &&& nodes[i].outputs.len() == node.output_slots.len()
                    &&& forall|k: int|
                        0 <= k < node.output_slots.len() ==> #[trigger] nodes[i].outputs[k]
                            == out_of(shot, env, node.output_slots[k])
                }
        }),
{
    let shot = shot_of(snapshot);
    let order = order_of(shot.ir);
    assert(has_order(shot.ir));
    assert(ir_order(shot.ir, order));
    let scope = scope_of(shot, side, env)->Ok_0;
    let unmarked = plan_nodes(snapshot, side, env, scope, order)->Ok_0;
    lemma_plan_nodes(snapshot, side, env, scope, order);
    lemma_mark_nodes(unmarked, scope.dom());
    let nodes = plan_graph(snapshot, side, env)->Ok_0;
    assert(nodes == mark_nodes(unmarked, scope.dom()));
    assert forall|i: int| 0 <= i < order.len() implies {
        let node = shot.nodes[order[i] as int];
        &&& (#[trigger] nodes[i]).op_type == node.op_type
        &&& nodes[i].domain == node.domain
        &&& nodes[i].since_version == node.since_version
        &&& nodes[i].outputs.len() == node.output_slots.len()
        &&& forall|k: int|
            0 <= k < node.output_slots.len() ==> #[trigger] nodes[i].outputs[k] == out_of(
                shot,
                env,
                node.output_slots[k],
            )
    } by {
        assert(plan_node(snapshot, side, env, scope, order[i]) == Ok::<NodeModel, Seq<char>>(
            unmarked[i],
        ));
        assert(nodes[i].op_type == unmarked[i].op_type);
        assert(nodes[i].outputs == unmarked[i].outputs);
    }
}

/// A node runs after every node that produces one of its inputs.
pub proof fn law_producers_run_first(shot: Shot, i: int, slot: int, producer: u32)
    requires
        mirrors(shot),
        has_order(shot.ir),
        0 <= i < order_of(shot.ir).len(),
        0 <= slot < shot.nodes[order_of(shot.ir)[i] as int].input_slots.len(),
        shot.nodes[order_of(shot.ir)[i] as int].input_slots[slot] matches Some(value)
            && shot.ir.values[value as int].producer == Some(producer),
    ensures
        exists|k: int| 0 <= k < i && order_of(shot.ir)[k] == producer,
{
    let order = order_of(shot.ir);
    assert(ir_order(shot.ir, order));
    let n = order[i] as int;
    assert(order[i] < shot.ir.nodes.len());
    let inner = shot.ir.nodes[n];
    assert(inner.inputs == shot.nodes[n].input_slots);
    let value = shot.nodes[n].input_slots[slot]->0;
    assert(shot.nodes[n].input_slots[slot] is Some);
    assert(crate::snapshot_laws::producer_agrees(shot, value as int));
    assert(shot.ir.nodes[n].inputs[slot] is Some);
    assert(ir_feeds(shot.ir, producer as int, n));
    assert(ir_ready(shot.ir, order.take(i), n));
    assert(order.take(i).contains(producer));
    let k = choose|k: int| 0 <= k < order.take(i).len() && order.take(i)[k] == producer;
    assert(order[k] == producer);
}

/// Only the outermost graph hands values out of the fused node.
pub proof fn law_body_outputs_internal(snapshot: OrtGraphSnapshot, side: SideModel, env: PlanEnv)
    requires
        plan_graph(snapshot, side, env) is Ok,
        !env.root,
    ensures
        ({
            let nodes = plan_graph(snapshot, side, env)->Ok_0;
            forall|i: int, k: int|
                0 <= i < nodes.len() && 0 <= k < nodes[i].outputs.len() ==> !(
                #[trigger] nodes[i].outputs[k]).external
        }),
{
    law_plan_order(snapshot, side, env);
    let shot = shot_of(snapshot);
    let nodes = plan_graph(snapshot, side, env)->Ok_0;
    let order = order_of(shot.ir);
    assert forall|i: int, k: int| 0 <= i < nodes.len() && 0 <= k < nodes[i].outputs.len() implies !(
    #[trigger] nodes[i].outputs[k]).external by {
        let node = shot.nodes[order[i] as int];
        assert(nodes[i].op_type == node.op_type);
        assert(nodes[i].outputs[k] == out_of(shot, env, node.output_slots[k]));
    }
}

/// In a captured graph an input is left unresolved exactly when nothing visible has its name: no
/// node of the graph produces it, it is no formal input of a body, no initializer, no input of the
/// fused node and no outer name.
pub proof fn law_unresolved_inputs(
    shot: Shot,
    env: PlanEnv,
    scope: Map<Seq<char>, InitModel>,
    node: int,
    index: int,
)
    requires
        mirrors(shot),
        0 <= node < shot.nodes.len(),
        0 <= index < shot.nodes[node].input_slots.len(),
    ensures
        match shot.nodes[node].input_slots[index] {
            None => resolve(shot, env, scope, node, index) is Ok,
            Some(value) => {
                let name = shot.values[value as int].name;
                &&& resolve(shot, env, scope, node, index) is Err <==> {
                    &&& shot.ir.values[value as int].producer is None
                    &&& env.root || !is_formal(shot, name)
                    &&& !scope.contains_key(name)
                    &&& if env.root {
                        !env.ctx_inputs.contains_key(value)
                    } else {
                        !env.ctx_names.contains_key(name)
                    }
                    &&& !env.enclosing.contains(name)
                }
                &&& resolve(shot, env, scope, node, index) is Err ==> resolve(
                    shot,
                    env,
                    scope,
                    node,
                    index,
                ) == Err::<TensorModel, Seq<char>>(
                    "MLX could not resolve subgraph input "@ + name,
                )
                &&& resolve(shot, env, scope, node, index) matches Ok(tensor) ==> tensor.name
                    == name && tensor.source != Src::Absent
            },
        },
{
    let inner = shot.ir.nodes[node];
    assert(shot.nodes[node].input_slots.len() <= u32::MAX);
    match shot.nodes[node].input_slots[index] {
        None => {},
        Some(value) => {
            assert(shot.nodes[node].input_slots[index] is Some);
            assert(value < shot.values.len());
            assert(shot.ir.values[value as int].uses.contains((node as u32, index as u32)));
        },
    }
}

} // verus!
