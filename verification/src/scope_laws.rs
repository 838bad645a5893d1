//! Where the inputs of planned nodes come from, in the graph and in bodies at every depth.
//!
//! A way into a plan is a list of steps, each from a node of the plan into one of its bodies.

use vstd::prelude::*;

use crate::engine::{InitModel, NodeModel, Src, TensorModel};
use crate::init_data::owned_of;
use crate::ir::{ir_order, storage_bytes};
use crate::lex::{body_list, lemma_body_list_exists, lex_less};
use crate::plan_builder::{
    body_env, has_order, is_formal, order_of, plan_bodies, plan_graph, plan_node, plan_nodes,
    resolve, resolve_below, scope_below, scope_of, slot_names, PlanEnv,
};
use crate::plan_laws::lemma_plan_nodes;
use crate::shape_const::{
    body_scope, constants_after, lemma_mark_bodies, lemma_mark_nodes, mark_body, mark_node,
    mark_nodes,
};
use crate::sidecars::{side_index, SideModel};
use crate::snapshot::{
    entries_distinct, entries_well_formed, shot_of, well_formed, OrtGraphSnapshot, Shot,
    SubgraphEntry,
};

verus! {

/// The layout of an initializer, and the bytes it is given.
pub type Source = (InitModel, Option<Seq<u8>>);

/// The initializer keeps the layout of its source and holds, where it has none of its own, those of
/// the bytes it is given that its elements take.
pub open spec fn is_copy(source: Source, init: InitModel) -> bool {
    let (layout, data) = source;
    &&& init.shape == layout.shape
    &&& init.dtype == layout.dtype
    &&& init.count == layout.count
    &&& match (layout.owned, data) {
        (None, Some(data)) => {
            let bytes = storage_bytes(layout.dtype as i32, layout.count as nat);
            let held = if bytes <= data.len() {
                bytes as int
            } else {
                data.len() as int
            };
            &&& init.owned is Some
            &&& init.owned->0.len() == held
            &&& forall|i: int| 0 <= i < held ==> #[trigger] init.owned->0[i] == data[i]
        },
        _ => init.owned == layout.owned,
    }
}

/// The value initializes that name.
pub open spec fn initializes(shot: Shot, side: SideModel, value: u32, name: Seq<char>) -> bool {
    &&& value < shot.values.len()
    &&& shot.values[value as int].name == name
    &&& side.initializers.contains_key(value)
}

/// The value is the last one that initializes the name.
pub open spec fn last_initializes(
    shot: Shot,
    side: SideModel,
    value: u32,
    name: Seq<char>,
) -> bool {
    &&& initializes(shot, side, value, name)
    &&& forall|other: u32| #[trigger]
        initializes(shot, side, other, name) ==> other <= value
}

/// What a graph initializes under that name, or else what is initialized outside.
pub open spec fn nearest(
    shot: Shot,
    side: SideModel,
    outer: Option<Source>,
    name: Seq<char>,
) -> Option<Source> {
    if exists|value: u32| initializes(shot, side, value, name) {
        Some(side.initializers[choose|value: u32| last_initializes(shot, side, value, name)])
    } else {
        outer
    }
}

/// What surrounds a graph initializes under that name.
pub open spec fn outside(env: PlanEnv, name: Seq<char>) -> Option<Source> {
    if !env.root && env.inits.contains_key(name) {
        Some((env.inits[name], None))
    } else {
        None
    }
}

/// The body of a node with that attribute.
pub open spec fn body_at(snapshot: OrtGraphSnapshot, node: u32, attribute: Seq<char>) -> int {
    choose|e: int| is_body(snapshot, node, attribute, e)
}

pub open spec fn is_body(
    snapshot: OrtGraphSnapshot,
    node: u32,
    attribute: Seq<char>,
    e: int,
) -> bool {
    &&& 0 <= e < snapshot.subgraphs@.len()
    &&& snapshot.subgraphs@[e].node == node
    &&& snapshot.subgraphs@[e].attribute@ == attribute
}

/// The steps lead from nodes into bodies of theirs.
pub open spec fn leads_in(nodes: Seq<NodeModel>, way: Seq<(int, int)>) -> bool
    decreases way.len(),
{
    way.len() == 0 || {
        let (i, b) = way[0];
        &&& 0 <= i < nodes.len()
        &&& 0 <= b < nodes[i].subgraphs.len()
        &&& leads_in(nodes[i].subgraphs[b].nodes, way.drop_first())
    }
}

/// The nodes that a way leads to.
pub open spec fn inner_nodes(nodes: Seq<NodeModel>, way: Seq<(int, int)>) -> Seq<NodeModel>
    decreases way.len(),
{
    if way.len() == 0 {
        nodes
    } else {
        let (i, b) = way[0];
        inner_nodes(nodes[i].subgraphs[b].nodes, way.drop_first())
    }
}

/// The body of the graph, and its sidecars, that the first step leads into.
pub open spec fn first_step(
    snapshot: OrtGraphSnapshot,
    side: SideModel,
    nodes: Seq<NodeModel>,
    step: (int, int),
) -> (OrtGraphSnapshot, SideModel) {
    let node = order_of(shot_of(snapshot).ir)[step.0];
    let attribute = nodes[step.0].subgraphs[step.1].attr_name;
    (
        *snapshot.subgraphs@[body_at(snapshot, node, attribute)].snapshot,
        side.subgraphs[side_index(side.subgraphs, node, attribute)->0].side,
    )
}

/// The graph, and its sidecars, that a way leads to.
pub open spec fn inner_graph(
    snapshot: OrtGraphSnapshot,
    side: SideModel,
    nodes: Seq<NodeModel>,
    way: Seq<(int, int)>,
) -> (OrtGraphSnapshot, SideModel)
    decreases way.len(),
{
    if way.len() == 0 {
        (snapshot, side)
    } else {
        let (i, b) = way[0];
        let (child, child_side) = first_step(snapshot, side, nodes, way[0]);
        inner_graph(child, child_side, nodes[i].subgraphs[b].nodes, way.drop_first())
    }
}

/// What is initialized under that name where a way leads to: the innermost initializer hides the
/// others.
pub open spec fn in_sight(
    snapshot: OrtGraphSnapshot,
    side: SideModel,
    nodes: Seq<NodeModel>,
    outer: Option<Source>,
    way: Seq<(int, int)>,
    name: Seq<char>,
) -> Option<Source>
    decreases way.len(),
{
    let here = nearest(shot_of(snapshot), side, outer, name);
    if way.len() == 0 {
        here
    } else {
        let (i, b) = way[0];
        let (child, child_side) = first_step(snapshot, side, nodes, way[0]);
        in_sight(
            child,
            child_side,
            nodes[i].subgraphs[b].nodes,
            here,
            way.drop_first(),
            name,
        )
    }
}

/// A formal input of the graph has that name.
pub open spec fn takes(shot: Shot, name: Seq<char>) -> bool {
    exists|i: int|
        0 <= i < shot.inputs.len() && (#[trigger] shot.inputs[i]) is Some
            && shot.values[shot.inputs[i]->0 as int].name == name
}

/// An output of one of the graph's nodes has that name.
pub open spec fn makes(shot: Shot, name: Seq<char>) -> bool {
    exists|n: int, i: int|
        0 <= n < shot.nodes.len() && 0 <= i < shot.nodes[n].output_slots.len() && (
        #[trigger] shot.nodes[n].output_slots[i]) is Some
            && shot.values[shot.nodes[n].output_slots[i]->0 as int].name == name
}

/// Some graph around the one that a way leads to takes or makes a value of that name.
pub open spec fn named_around(
    snapshot: OrtGraphSnapshot,
    side: SideModel,
    nodes: Seq<NodeModel>,
    outer: bool,
    way: Seq<(int, int)>,
    name: Seq<char>,
) -> bool
    decreases way.len(),
{
    if way.len() == 0 {
        outer
    } else {
        let (i, b) = way[0];
        let shot = shot_of(snapshot);
        let (child, child_side) = first_step(snapshot, side, nodes, way[0]);
        named_around(
            child,
            child_side,
            nodes[i].subgraphs[b].nodes,
            outer || takes(shot, name) || makes(shot, name),
            way.drop_first(),
            name,
        )
    }
}

proof fn lemma_owned(source: Source)
    ensures
        owned_of(source.0, source.1) matches Ok(init) ==> is_copy(source, init),
{
}

proof fn lemma_last(shot: Shot, side: SideModel, name: Seq<char>, value: u32)
    requires
        initializes(shot, side, value, name),
        shot.values.len() <= u32::MAX + 1,
    ensures
        exists|last: u32| last_initializes(shot, side, last, name),
    decreases u32::MAX - value,
{
    if exists|other: u32| #[trigger] initializes(shot, side, other, name) && other > value {
        let other = choose|other: u32| #[trigger]
            initializes(shot, side, other, name) && other > value;
        lemma_last(shot, side, name, other);
    } else {
        assert(last_initializes(shot, side, value, name));
    }
}

proof fn lemma_scope_below(
    shot: Shot,
    side: SideModel,
    base: Map<Seq<char>, InitModel>,
    k: int,
    name: Seq<char>,
)
    requires
        0 <= k <= shot.values.len() <= u32::MAX + 1,
        scope_below(shot, side, base, k) is Ok,
    ensures
        ({
            let scope = scope_below(shot, side, base, k)->Ok_0;
            &&& (forall|value: u32| #[trigger] initializes(shot, side, value, name) ==> value >= k)
                ==> (scope.contains_key(name) == base.contains_key(name) && scope[name]
                == base[name])
            &&& forall|value: u32|
                #![trigger initializes(shot, side, value, name)]
                initializes(shot, side, value, name) && value < k && (forall|other: u32|
                    #[trigger] initializes(shot, side, other, name) && other < k ==> other
                        <= value) ==> scope.contains_key(name) && is_copy(
                    side.initializers[value],
                    scope[name],
                )
        }),
    decreases k,
{
    if k > 0 {
        lemma_scope_below(shot, side, base, k - 1, name);
        let before = scope_below(shot, side, base, k - 1)->Ok_0;
        let scope = scope_below(shot, side, base, k)->Ok_0;
        let id = (k - 1) as u32;
        if side.initializers.contains_key(id) {
            lemma_owned(side.initializers[id]);
        }
        if initializes(shot, side, id, name) {
            assert forall|value: u32|
                #![trigger initializes(shot, side, value, name)]
                initializes(shot, side, value, name) && value < k && (forall|other: u32|
                    #[trigger] initializes(shot, side, other, name) && other < k ==> other
                        <= value) implies scope.contains_key(name) && is_copy(
                side.initializers[value],
                scope[name],
            ) by {
                assert(id <= value);
            }
        } else {
            assert(scope.contains_key(name) == before.contains_key(name) && scope[name]
                == before[name]) by {
                if side.initializers.contains_key(id) {
                    assert(shot.values[k - 1].name != name);
                }
            }
            if forall|value: u32| #[trigger] initializes(shot, side, value, name) ==> value >= k {
                assert forall|value: u32| #[trigger]
                    initializes(shot, side, value, name) implies value >= k - 1 by {}
            }
            assert forall|value: u32|
                #![trigger initializes(shot, side, value, name)]
                initializes(shot, side, value, name) && value < k && (forall|other: u32|
                    #[trigger] initializes(shot, side, other, name) && other < k ==> other
                        <= value) implies scope.contains_key(name) && is_copy(
                side.initializers[value],
                scope[name],
            ) by {
                assert(value != id);
                assert(value < k - 1);
                assert forall|other: u32| #[trigger]
                    initializes(shot, side, other, name) && other < k - 1 implies other
                    <= value by {}
            }
        }
    }
}

pub proof fn lemma_scope(shot: Shot, side: SideModel, env: PlanEnv, name: Seq<char>)
    requires
        shot.values.len() <= u32::MAX + 1,
        scope_of(shot, side, env) is Ok,
    ensures
        ({
            let scope = scope_of(shot, side, env)->Ok_0;
            let seen = nearest(shot, side, outside(env, name), name);
            &&& scope.contains_key(name) == (seen is Some)
            &&& seen is Some ==> is_copy(seen->0, scope[name])
        }),
{
    let base = if env.root {
        Map::empty()
    } else {
        env.inits
    };
    lemma_scope_below(shot, side, base, shot.values.len() as int, name);
    if exists|value: u32| initializes(shot, side, value, name) {
        let value = choose|value: u32| initializes(shot, side, value, name);
        lemma_last(shot, side, name, value);
        let last = choose|last: u32| last_initializes(shot, side, last, name);
        assert(initializes(shot, side, last, name));
        assert forall|other: u32| #[trigger]
            initializes(shot, side, other, name) && other < shot.values.len() implies other
            <= last by {}
    } else {
        assert forall|value: u32| #[trigger] initializes(shot, side, value, name) implies value
            >= shot.values.len() by {}
    }
}

proof fn lemma_resolved(
    shot: Shot,
    env: PlanEnv,
    scope: Map<Seq<char>, InitModel>,
    node: int,
    k: int,
)
    requires
        0 <= k,
        resolve_below(shot, env, scope, node, k) is Ok,
    ensures
        resolve_below(shot, env, scope, node, k)->Ok_0.len() == k,
        forall|i: int|
            0 <= i < k ==> resolve(shot, env, scope, node, i) == Ok::<TensorModel, Seq<char>>(
                #[trigger] resolve_below(shot, env, scope, node, k)->Ok_0[i],
            ),
    decreases k,
{
    if k > 0 {
        lemma_resolved(shot, env, scope, node, k - 1);
    }
}

proof fn lemma_planned_bodies(
    snapshot: OrtGraphSnapshot,
    side: SideModel,
    env: PlanEnv,
    node: u32,
    list: Seq<int>,
)
    requires
        plan_bodies(snapshot, side, env, node, list) is Ok,
        forall|x: int| 0 <= x < list.len() ==> 0 <= #[trigger] list[x] < snapshot.subgraphs@.len(),
    ensures
        ({
            let bodies = plan_bodies(snapshot, side, env, node, list)->Ok_0;
            &&& bodies.len() == list.len()
            &&& forall|x: int|
                0 <= x < list.len() ==> {
                    let entry = snapshot.subgraphs@[list[x]];
                    let child = shot_of(*entry.snapshot);
                    let at = side_index(side.subgraphs, node, entry.attribute@)->0;
                    let body = #[trigger] bodies[x];
                    &&& body.attr_name == entry.attribute@
                    &&& body.input_names == slot_names(child, child.inputs)
                    &&& body.output_names == slot_names(child, child.outputs)
                    &&& plan_graph(*entry.snapshot, side.subgraphs[at].side, env) == Ok::<
                        Seq<NodeModel>,
                        Seq<char>,
                    >(body.nodes)
                }
        }),
    decreases list.len(),
{
    if list.len() > 0 {
        let front = list.drop_last();
        assert forall|x: int| 0 <= x < front.len() implies 0 <= #[trigger] front[x]
            < snapshot.subgraphs@.len() by {
            assert(list[x] == front[x]);
        }
        lemma_planned_bodies(snapshot, side, env, node, front);
        let last = list[list.len() - 1];
        let before = plan_bodies(snapshot, side, env, node, front)->Ok_0;
        let bodies = plan_bodies(snapshot, side, env, node, list)->Ok_0;
        assert forall|x: int| 0 <= x < list.len() implies {
            let entry = snapshot.subgraphs@[list[x]];
            let child = shot_of(*entry.snapshot);
            let at = side_index(side.subgraphs, node, entry.attribute@)->0;
            let body = #[trigger] bodies[x];
            &&& body.attr_name == entry.attribute@
            &&& body.input_names == slot_names(child, child.inputs)
            &&& body.output_names == slot_names(child, child.outputs)
            &&& plan_graph(*entry.snapshot, side.subgraphs[at].side, env) == Ok::<
                Seq<NodeModel>,
                Seq<char>,
            >(body.nodes)
        } by {
            if x < front.len() {
                assert(bodies[x] == before[x]);
                assert(front[x] == list[x]);
            }
        }
    }
}

proof fn lemma_entry_well_formed(entries: Seq<SubgraphEntry>, e: int)
    requires
        entries_well_formed(entries),
        0 <= e < entries.len(),
    ensures
        well_formed(*entries[e].snapshot),
    decreases entries.len(),
{
    if e < entries.len() - 1 {
        lemma_entry_well_formed(entries.drop_last(), e);
        assert(entries.drop_last()[e] == entries[e]);
    }
}

/// The plan of a graph before marks, and the plans of the bodies of its nodes.
spec fn has_plan(
    snapshot: OrtGraphSnapshot,
    side: SideModel,
    env: PlanEnv,
    scope: Map<Seq<char>, InitModel>,
    plain: Seq<NodeModel>,
) -> bool {
    let shot = shot_of(snapshot);
    let order = order_of(shot.ir);
    &&& scope_of(shot, side, env) == Ok::<Map<Seq<char>, InitModel>, Seq<char>>(scope)
    &&& ir_order(shot.ir, order)
    &&& plain.len() == order.len()
    &&& plan_graph(snapshot, side, env) == Ok::<Seq<NodeModel>, Seq<char>>(
        mark_nodes(plain, scope.dom()),
    )
    &&& forall|i: int|
        0 <= i < order.len() ==> plan_node(snapshot, side, env, scope, order[i]) == Ok::<
            NodeModel,
            Seq<char>,
        >(#[trigger] plain[i])
}

proof fn lemma_has_plan(snapshot: OrtGraphSnapshot, side: SideModel, env: PlanEnv)
    requires
        plan_graph(snapshot, side, env) is Ok,
    ensures
        ({
            let shot = shot_of(snapshot);
            let scope = scope_of(shot, side, env)->Ok_0;
            has_plan(
                snapshot,
                side,
                env,
                scope,
                plan_nodes(snapshot, side, env, scope, order_of(shot.ir))->Ok_0,
            )
        }),
{
    let shot = shot_of(snapshot);
    let order = order_of(shot.ir);
    assert(has_order(shot.ir));
    assert(ir_order(shot.ir, order));
    let scope = scope_of(shot, side, env)->Ok_0;
    lemma_plan_nodes(snapshot, side, env, scope, order);
}

proof fn lemma_step(
    snapshot: OrtGraphSnapshot,
    side: SideModel,
    env: PlanEnv,
    scope: Map<Seq<char>, InitModel>,
    plain: Seq<NodeModel>,
    step: (int, int),
)
    requires
        well_formed(snapshot),
        has_plan(snapshot, side, env, scope, plain),
        0 <= step.0 < plain.len(),
        0 <= step.1 < plain[step.0].subgraphs.len(),
    ensures
        ({
            let (child, child_side) = first_step(snapshot, side, plain, step);
            &&& well_formed(child)
            &&& plan_graph(child, child_side, body_env(shot_of(snapshot), env, scope)) == Ok::<
                Seq<NodeModel>,
                Seq<char>,
            >(plain[step.0].subgraphs[step.1].nodes)
        }),
{
    let (i, b) = step;
    let shot = shot_of(snapshot);
    let entries = snapshot.subgraphs@;
    let node = order_of(shot.ir)[i];
    let inner = body_env(shot, env, scope);
    let list = body_list(entries, node);
    assert(plan_node(snapshot, side, env, scope, node) == Ok::<NodeModel, Seq<char>>(plain[i]));
    assert(entries_distinct(entries));
    lemma_body_list_exists(entries, node);
    assert forall|x: int| 0 <= x < list.len() implies 0 <= #[trigger] list[x] < entries.len() by {
        assert(list.contains(list[x]));
    }
    lemma_planned_bodies(snapshot, side, inner, node, list);
    let body = plain[i].subgraphs[b];
    let e = list[b];
    assert(list.contains(e));
    assert(is_body(snapshot, node, body.attr_name, e));
    let at = body_at(snapshot, node, body.attr_name);
    assert(is_body(snapshot, node, body.attr_name, at));
    if e < at {
        assert(entries[e].node != entries[at].node || entries[e].attribute@
            != entries[at].attribute@);
    }
    if at < e {
        assert(entries[at].node != entries[e].node || entries[at].attribute@
            != entries[e].attribute@);
    }
    lemma_entry_well_formed(entries, e);
}

/// Marks change neither ways nor what they lead to, but for marks.
proof fn lemma_marked_way(
    snapshot: OrtGraphSnapshot,
    side: SideModel,
    nodes: Seq<NodeModel>,
    constants: Set<Seq<char>>,
    way: Seq<(int, int)>,
    outer: Option<Source>,
    known: bool,
    name: Seq<char>,
)
    ensures
        ({
            let marked = mark_nodes(nodes, constants);
            &&& leads_in(marked, way) == leads_in(nodes, way)
            &&& leads_in(nodes, way) ==> {
                &&& exists|inner: Set<Seq<char>>| #[trigger]
                    mark_nodes(inner_nodes(nodes, way), inner) == inner_nodes(marked, way)
                &&& inner_graph(snapshot, side, marked, way) == inner_graph(
                    snapshot,
                    side,
                    nodes,
                    way,
                )
                &&& in_sight(snapshot, side, marked, outer, way, name) == in_sight(
                    snapshot,
                    side,
                    nodes,
                    outer,
                    way,
                    name,
                )
                &&& named_around(snapshot, side, marked, known, way, name) == named_around(
                    snapshot,
                    side,
                    nodes,
                    known,
                    way,
                    name,
                )
            }
        }),
    decreases way.len(),
{
    let marked = mark_nodes(nodes, constants);
    lemma_mark_nodes(nodes, constants);
    if way.len() > 0 {
        let (i, b) = way[0];
        if 0 <= i < nodes.len() {
            let seen = constants_after(nodes.take(i), constants);
            assert(marked[i] == mark_node(nodes[i], seen));
            lemma_mark_bodies(nodes[i].subgraphs, seen);
            if 0 <= b < nodes[i].subgraphs.len() {
                let body = nodes[i].subgraphs[b];
                assert(marked[i].subgraphs[b] == mark_body(body, seen));
                let (child, child_side) = first_step(snapshot, side, nodes, way[0]);
                let shot = shot_of(snapshot);
                lemma_marked_way(
                    child,
                    child_side,
                    body.nodes,
                    body_scope(seen, body),
                    way.drop_first(),
                    nearest(shot, side, outer, name),
                    known || takes(shot, name) || makes(shot, name),
                    name,
                );
            }
        }
    } else {
        assert(mark_nodes(inner_nodes(nodes, way), constants) == inner_nodes(marked, way));
    }
}

/// The input of a planned node, wherever a way leads to, is what its slot holds there. An empty
/// slot is absent. A value that the graph itself makes, or takes as a body, is left to the run. Any
/// other value is the innermost initializer of its name that is in sight, with the layout and the
/// bytes of that initializer. Without one it is the input of the fused node that holds it, found by
/// the value itself in the outermost graph and by its name in a body; and without that, a value of
/// that name that is made or taken around.
pub open spec fn input_is_traced(
    snapshot: OrtGraphSnapshot,
    side: SideModel,
    env: PlanEnv,
    nodes: Seq<NodeModel>,
    way: Seq<(int, int)>,
    j: int,
    k: int,
) -> bool {
    let shot = shot_of(inner_graph(snapshot, side, nodes, way).0);
    let top = way.len() == 0 && env.root;
    let record = shot.nodes[order_of(shot.ir)[j] as int];
    let input = inner_nodes(nodes, way)[j].inputs[k];
    &&& inner_nodes(nodes, way)[j].inputs.len() == record.input_slots.len()
    &&& !input.constant
    &&& input.source != Src::CtxInput ==> input.ctx_index == 0
    &&& match record.input_slots[k] {
        None => input.source == Src::Absent && input.name.len() == 0 && input.init is None,
        Some(value) => {
            let name = shot.values[value as int].name;
            let source = in_sight(snapshot, side, nodes, outside(env, name), way, name);
            &&& input.name == name
            &&& if shot.ir.values[value as int].producer is Some || (!top && takes(shot, name)) {
                input.source == Src::Intermediate && input.init is None
            } else if source is Some {
                input.source == Src::Initializer && input.init is Some && is_copy(
                    source->0,
                    input.init->0,
                )
            } else if top && env.ctx_inputs.contains_key(value) {
                input.source == Src::CtxInput && input.ctx_index == env.ctx_inputs[value]
                    && input.init is None
            } else if !top && env.ctx_names.contains_key(name) {
                input.source == Src::CtxInput && input.ctx_index == env.ctx_names[name]
                    && input.init is None
            } else {
                input.source == Src::Intermediate && input.init is None && named_around(
                    snapshot,
                    side,
                    nodes,
                    env.enclosing.contains(name),
                    way,
                    name,
                )
            }
        },
    }
}

/// Every input of every node of a plan, at every depth, is traced to where its value comes from.
pub proof fn law_inputs_are_traced(
    snapshot: OrtGraphSnapshot,
    side: SideModel,
    env: PlanEnv,
    nodes: Seq<NodeModel>,
    way: Seq<(int, int)>,
    j: int,
    k: int,
)
    requires
        well_formed(snapshot),
        plan_graph(snapshot, side, env) == Ok::<Seq<NodeModel>, Seq<char>>(nodes),
        leads_in(nodes, way),
        0 <= j < inner_nodes(nodes, way).len(),
        0 <= k < inner_nodes(nodes, way)[j].inputs.len(),
    ensures
        input_is_traced(snapshot, side, env, nodes, way, j, k),
    decreases way.len(),
{
    let shot = shot_of(snapshot);
    lemma_has_plan(snapshot, side, env);
    let scope = scope_of(shot, side, env)->Ok_0;
    let order = order_of(shot.ir);
    let plain = plan_nodes(snapshot, side, env, scope, order)->Ok_0;
    lemma_mark_nodes(plain, scope.dom());
    if way.len() == 0 {
        assert(plan_node(snapshot, side, env, scope, order[j]) == Ok::<NodeModel, Seq<char>>(
            plain[j],
        ));
        let record = shot.nodes[order[j] as int];
        assert(nodes[j] == mark_node(plain[j], constants_after(plain.take(j), scope.dom())));
        lemma_resolved(shot, env, scope, order[j] as int, record.input_slots.len() as int);
        assert(resolve(shot, env, scope, order[j] as int, k) == Ok::<TensorModel, Seq<char>>(
            plain[j].inputs[k],
        ));
        match record.input_slots[k] {
            None => {},
            Some(value) => {
                let name = shot.values[value as int].name;
                lemma_scope(shot, side, env, name);
                assert(is_formal(shot, name) == takes(shot, name));
            },
        }
    } else {
        let (i, b) = way[0];
        let seen = constants_after(plain.take(i), scope.dom());
        assert(nodes[i] == mark_node(plain[i], seen));
        lemma_mark_bodies(plain[i].subgraphs, seen);
        let body = plain[i].subgraphs[b];
        assert(nodes[i].subgraphs[b] == mark_body(body, seen));
        let inner = body_env(shot, env, scope);
        lemma_step(snapshot, side, env, scope, plain, way[0]);
        let (child, child_side) = first_step(snapshot, side, plain, way[0]);
        assert(first_step(snapshot, side, nodes, way[0]) == (child, child_side));
        let rest = way.drop_first();
        let within = body_scope(seen, body);
        let no_name = Seq::<char>::empty();
        lemma_marked_way(child, child_side, body.nodes, within, rest, None, false, no_name);
        let deep = inner_nodes(body.nodes, rest);
        let marks = choose|marks: Set<Seq<char>>| #[trigger]
            mark_nodes(deep, marks) == inner_nodes(nodes, way);
        lemma_mark_nodes(deep, marks);
        assert(inner_nodes(nodes, way)[j] == mark_node(
            deep[j],
            constants_after(deep.take(j), marks),
        ));
        law_inputs_are_traced(child, child_side, inner, body.nodes, rest, j, k);
        let within_shot = shot_of(inner_graph(child, child_side, body.nodes, rest).0);
        let record = within_shot.nodes[order_of(within_shot.ir)[j] as int];
        match record.input_slots[k] {
            None => {},
            Some(value) => {
                let name = within_shot.values[value as int].name;
                lemma_scope(shot, side, env, name);
                let here = nearest(shot, side, outside(env, name), name);
                lemma_marked_way(
                    child,
                    child_side,
                    body.nodes,
                    within,
                    rest,
                    here,
                    inner.enclosing.contains(name),
                    name,
                );
                assert(inner.enclosing.contains(name) == (env.enclosing.contains(name) || takes(
                    shot,
                    name,
                ) || makes(shot, name)));
                lemma_outer_copy(
                    child,
                    child_side,
                    body.nodes,
                    rest,
                    here,
                    outside(inner, name),
                    name,
                );
            },
        }
    }
}

/// It makes no difference to what is in sight whether a source lies outside or a copy of it.
proof fn lemma_outer_copy(
    snapshot: OrtGraphSnapshot,
    side: SideModel,
    nodes: Seq<NodeModel>,
    way: Seq<(int, int)>,
    source: Option<Source>,
    copy: Option<Source>,
    name: Seq<char>,
)
    requires
        source is Some == copy is Some,
        source is Some ==> (copy->0).1 is None && is_copy(source->0, (copy->0).0),
    ensures
        ({
            let a = in_sight(snapshot, side, nodes, source, way, name);
            let b = in_sight(snapshot, side, nodes, copy, way, name);
            &&& a is Some == b is Some
            &&& a is Some ==> (a == b || (a == source && b == copy))
        }),
    decreases way.len(),
{
    let shot = shot_of(snapshot);
    if way.len() > 0 {
        let (i, b) = way[0];
        let (child, child_side) = first_step(snapshot, side, nodes, way[0]);
        if !(exists|value: u32| initializes(shot, side, value, name)) {
            lemma_outer_copy(
                child,
                child_side,
                nodes[i].subgraphs[b].nodes,
                way.drop_first(),
                source,
                copy,
                name,
            );
        }
    }
}

/// The nodes agree in all but the marks of their inputs and the nodes of their bodies.
spec fn alike(a: NodeModel, b: NodeModel) -> bool {
    &&& a.op_type == b.op_type
    &&& a.domain == b.domain
    &&& a.since_version == b.since_version
    &&& a.shape_safety == b.shape_safety
    &&& a.node_id == b.node_id
    &&& a.name == b.name
    &&& a.attributes == b.attributes
    &&& a.outputs == b.outputs
    &&& a.subgraphs.len() == b.subgraphs.len()
    &&& forall|x: int|
        0 <= x < a.subgraphs.len() ==> (#[trigger] a.subgraphs[x]).attr_name
            == b.subgraphs[x].attr_name && a.subgraphs[x].input_names == b.subgraphs[x].input_names
            && a.subgraphs[x].output_names == b.subgraphs[x].output_names
}

proof fn lemma_mark_alike(nodes: Seq<NodeModel>, marks: Set<Seq<char>>)
    ensures
        mark_nodes(nodes, marks).len() == nodes.len(),
        forall|j: int|
            0 <= j < nodes.len() ==> alike(#[trigger] mark_nodes(nodes, marks)[j], nodes[j]),
{
    lemma_mark_nodes(nodes, marks);
    assert forall|j: int| 0 <= j < nodes.len() implies alike(
        #[trigger] mark_nodes(nodes, marks)[j],
        nodes[j],
    ) by {
        lemma_mark_bodies(nodes[j].subgraphs, constants_after(nodes.take(j), marks));
    }
}

/// What a way leads to is the plan of a graph in some surroundings, but for marks.
spec fn is_inner_plan(
    snapshot: OrtGraphSnapshot,
    side: SideModel,
    env: PlanEnv,
    nodes: Seq<NodeModel>,
    way: Seq<(int, int)>,
    around: PlanEnv,
) -> bool {
    let (graph, graph_side) = inner_graph(snapshot, side, nodes, way);
    let shot = shot_of(graph);
    let scope = scope_of(shot, graph_side, around)->Ok_0;
    let plain = plan_nodes(graph, graph_side, around, scope, order_of(shot.ir))->Ok_0;
    &&& well_formed(graph)
    &&& has_plan(graph, graph_side, around, scope, plain)
    &&& inner_nodes(nodes, way).len() == plain.len()
    &&& forall|j: int|
        0 <= j < plain.len() ==> alike(#[trigger] inner_nodes(nodes, way)[j], plain[j])
    &&& around.root == (env.root && way.len() == 0)
    &&& around.keep_names == env.keep_names
    &&& way.len() == 0 ==> around.ctx_outputs == env.ctx_outputs
}

proof fn lemma_inner_plan(
    snapshot: OrtGraphSnapshot,
    side: SideModel,
    env: PlanEnv,
    nodes: Seq<NodeModel>,
    way: Seq<(int, int)>,
)
    requires
        well_formed(snapshot),
        plan_graph(snapshot, side, env) == Ok::<Seq<NodeModel>, Seq<char>>(nodes),
        leads_in(nodes, way),
    ensures
        exists|around: PlanEnv| #[trigger]
            is_inner_plan(snapshot, side, env, nodes, way, around),
    decreases way.len(),
{
    let shot = shot_of(snapshot);
    lemma_has_plan(snapshot, side, env);
    let scope = scope_of(shot, side, env)->Ok_0;
    let plain = plan_nodes(snapshot, side, env, scope, order_of(shot.ir))->Ok_0;
    lemma_mark_alike(plain, scope.dom());
    if way.len() == 0 {
        assert(is_inner_plan(snapshot, side, env, nodes, way, env));
    } else {
        let (i, b) = way[0];
        lemma_mark_nodes(plain, scope.dom());
        let seen = constants_after(plain.take(i), scope.dom());
        assert(nodes[i] == mark_node(plain[i], seen));
        lemma_mark_bodies(plain[i].subgraphs, seen);
        let body = plain[i].subgraphs[b];
        assert(nodes[i].subgraphs[b] == mark_body(body, seen));
        let inner = body_env(shot, env, scope);
        lemma_step(snapshot, side, env, scope, plain, way[0]);
        let (child, child_side) = first_step(snapshot, side, plain, way[0]);
        assert(first_step(snapshot, side, nodes, way[0]) == (child, child_side));
        let rest = way.drop_first();
        let within = body_scope(seen, body);
        let no_name = Seq::<char>::empty();
        lemma_marked_way(child, child_side, body.nodes, within, rest, None, false, no_name);
        lemma_inner_plan(child, child_side, inner, body.nodes, rest);
        let around = choose|around: PlanEnv| #[trigger]
            is_inner_plan(child, child_side, inner, body.nodes, rest, around);
        let deep = inner_nodes(body.nodes, rest);
        let over = choose|over: Set<Seq<char>>| #[trigger]
            mark_nodes(deep, over) == inner_nodes(nodes, way);
        lemma_mark_alike(deep, over);
        assert forall|j: int| 0 <= j < deep.len() implies alike(
            #[trigger] inner_nodes(nodes, way)[j],
            deep[j],
        ) by {
            assert(mark_nodes(deep, over)[j] == inner_nodes(nodes, way)[j]);
        }
        assert(is_inner_plan(snapshot, side, env, nodes, way, around));
    }
}

/// The names that a body lists for slots: an empty slot has the empty name.
pub open spec fn names_slots(shot: Shot, slots: Seq<Option<u32>>, names: Seq<Seq<char>>) -> bool {
    &&& names.len() == slots.len()
    &&& forall|x: int|
        0 <= x < slots.len() ==> match slots[x] {
            Some(value) => #[trigger] names[x] == shot.values[value as int].name,
            None => names[x].len() == 0,
        }
}

/// A planned node, wherever a way leads to, has the operator, domain and version of the node that
/// stands at its place in the order of its graph, and the attributes and the safety that the
/// sidecars know of it; its name and number are kept only for tracing. Its outputs have the names
/// and element types of the values in its output slots, none for an empty slot, and leave the fused
/// node, at the place named there, only in the outermost graph. Its bodies are those that the graph
/// has for the node, in ascending order of their attributes, with the names of their inputs and
/// outputs.
pub open spec fn node_is_described(
    snapshot: OrtGraphSnapshot,
    side: SideModel,
    env: PlanEnv,
    nodes: Seq<NodeModel>,
    way: Seq<(int, int)>,
    j: int,
) -> bool {
    let (graph, graph_side) = inner_graph(snapshot, side, nodes, way);
    let shot = shot_of(graph);
    let id = order_of(shot.ir)[j];
    let record = shot.nodes[id as int];
    let node = inner_nodes(nodes, way)[j];
    &&& node.op_type == record.op_type
    &&& node.domain == record.domain
    &&& node.since_version == record.since_version
    &&& node.shape_safety == graph_side.nodes[id].shape_safety
    &&& node.attributes == *graph_side.nodes[id].attributes
    &&& if env.keep_names {
        node.node_id == record.ort_node_id && node.name == record.name
    } else {
        node.node_id == 0 && node.name.len() == 0
    }
    &&& node.outputs.len() == record.output_slots.len()
    &&& forall|x: int|
        0 <= x < node.outputs.len() ==> {
            let output = #[trigger] node.outputs[x];
            match record.output_slots[x] {
                None => output.name.len() == 0 && !output.external && output.otype == 0,
                Some(value) => {
                    let held = shot.values[value as int];
                    let leaves = env.root && way.len() == 0 && env.ctx_outputs.contains_key(value);
                    &&& output.name == held.name
                    &&& output.otype == (if held.tensor is Some && held.tensor->0.dtype is Some {
                        held.tensor->0.dtype->0 as u32
                    } else {
                        0
                    })
                    &&& output.external == leaves
                    &&& leaves ==> output.ctx_index == env.ctx_outputs[value]
                },
            }
        }
    &&& forall|e: int|
        0 <= e < graph.subgraphs@.len() && (#[trigger] graph.subgraphs@[e]).node == id ==> exists|
            b: int,
        |
            0 <= b < node.subgraphs.len() && (#[trigger] node.subgraphs[b]).attr_name
                == graph.subgraphs@[e].attribute@
    &&& forall|b: int|
        0 <= b < node.subgraphs.len() ==> {
            let body = #[trigger] node.subgraphs[b];
            let e = body_at(graph, id, body.attr_name);
            let child = shot_of(*graph.subgraphs@[e].snapshot);
            &&& is_body(graph, id, body.attr_name, e)
            &&& names_slots(child, child.inputs, body.input_names)
            &&& names_slots(child, child.outputs, body.output_names)
        }
    &&& forall|a: int, b: int|
        0 <= a < b < node.subgraphs.len() ==> lex_less(
            (#[trigger] node.subgraphs[a]).attr_name,
            (#[trigger] node.subgraphs[b]).attr_name,
        )
}

/// Every node of a plan, at every depth, is what its graph says of it, and none is left out.
pub proof fn law_nodes_are_described(
    snapshot: OrtGraphSnapshot,
    side: SideModel,
    env: PlanEnv,
    nodes: Seq<NodeModel>,
    way: Seq<(int, int)>,
)
    requires
        well_formed(snapshot),
        plan_graph(snapshot, side, env) == Ok::<Seq<NodeModel>, Seq<char>>(nodes),
        leads_in(nodes, way),
    ensures
        ({
            let ir = shot_of(inner_graph(snapshot, side, nodes, way).0).ir;
            &&& ir_order(ir, order_of(ir))
            &&& inner_nodes(nodes, way).len() == ir.nodes.len()
            &&& forall|j: int|
                0 <= j < inner_nodes(nodes, way).len() ==> #[trigger] node_is_described(
                    snapshot,
                    side,
                    env,
                    nodes,
                    way,
                    j,
                )
        }),
{
    lemma_inner_plan(snapshot, side, env, nodes, way);
    let around = choose|around: PlanEnv| #[trigger]
        is_inner_plan(snapshot, side, env, nodes, way, around);
    let (graph, graph_side) = inner_graph(snapshot, side, nodes, way);
    let shot = shot_of(graph);
    let entries = graph.subgraphs@;
    let scope = scope_of(shot, graph_side, around)->Ok_0;
    let order = order_of(shot.ir);
    let plain = plan_nodes(graph, graph_side, around, scope, order)->Ok_0;
    assert forall|j: int|
        0 <= j < inner_nodes(nodes, way).len() implies #[trigger] node_is_described(
        snapshot,
        side,
        env,
        nodes,
        way,
        j,
    ) by {
        let id = order[j];
        let node = inner_nodes(nodes, way)[j];
        assert(alike(node, plain[j]));
        assert(plan_node(graph, graph_side, around, scope, id) == Ok::<NodeModel, Seq<char>>(
            plain[j],
        ));
        let record = shot.nodes[id as int];
        assert forall|x: int| 0 <= x < node.outputs.len() implies #[trigger] node.outputs[x]
            == crate::plan_builder::out_of(shot, around, record.output_slots[x]) by {
            assert(node.outputs[x] == plain[j].outputs[x]);
        }
        let list = body_list(entries, id);
        assert(entries_distinct(entries));
        lemma_body_list_exists(entries, id);
        assert forall|x: int| 0 <= x < list.len() implies 0 <= #[trigger] list[x] < entries.len() by {
            assert(list.contains(list[x]));
        }
        lemma_planned_bodies(graph, graph_side, body_env(shot, around, scope), id, list);
        assert forall|b: int| 0 <= b < node.subgraphs.len() implies {
            let body = #[trigger] node.subgraphs[b];
            let e = body_at(graph, id, body.attr_name);
            let child = shot_of(*entries[e].snapshot);
            &&& e == list[b]
            &&& is_body(graph, id, body.attr_name, e)
            &&& names_slots(child, child.inputs, body.input_names)
            &&& names_slots(child, child.outputs, body.output_names)
        } by {
            let body = node.subgraphs[b];
            let made = plain[j].subgraphs[b];
            assert(list.contains(list[b]));
            assert(is_body(graph, id, body.attr_name, list[b]));
            let e = body_at(graph, id, body.attr_name);
            assert(is_body(graph, id, body.attr_name, e));
            if e < list[b] {
                assert(entries[e].node != entries[list[b]].node || entries[e].attribute@
                    != entries[list[b]].attribute@);
            }
            if list[b] < e {
                assert(entries[list[b]].node != entries[e].node || entries[list[b]].attribute@
                    != entries[e].attribute@);
            }
        }
        assert forall|e: int|
            0 <= e < entries.len() && (#[trigger] entries[e]).node == id implies exists|b: int|
            0 <= b < node.subgraphs.len() && (#[trigger] node.subgraphs[b]).attr_name
                == entries[e].attribute@ by {
            assert(list.contains(e));
            let b = choose|b: int| 0 <= b < list.len() && list[b] == e;
            assert(node.subgraphs[b].attr_name == plain[j].subgraphs[b].attr_name);
        }
        assert forall|a: int, b: int| 0 <= a < b < node.subgraphs.len() implies lex_less(
            (#[trigger] node.subgraphs[a]).attr_name,
            (#[trigger] node.subgraphs[b]).attr_name,
        ) by {
            assert(lex_less(entries[list[a]].attribute@, entries[list[b]].attribute@));
        }
    }
}

} // verus!
