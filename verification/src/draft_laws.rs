//! What the draft of a plan holds, told by the boundary of the fused node, the graph and its bodies.

use vstd::prelude::*;

use crate::engine::{BodyModel, NodeModel};
use crate::ort_graph::captured;
use crate::plan_builder::{covers, covers_below, plan_graph, PlanEnv};
use crate::planner::{
    boundary_positions, draft_of, drafted, is_snapshot_of, kind_in_bodies, kind_occurs,
    plan_drafted, positions_below, root_env, snapshot_read, DraftModel, OpKind, RawBoundary,
};
use crate::raw_graph::RawGraph;
use crate::scope_laws::{inner_nodes, leads_in};
use crate::sidecars::{side_captured, side_index, RawSidecars, SideModel};
use crate::snapshot::{shot_of, value_named, OrtGraphSnapshot, Shot, ValueShot};
use crate::snapshot_laws::names_distinct;

verus! {

/// The slot at place `i` holds the value.
pub open spec fn slot_holds(
    values: Seq<ValueShot>,
    slots: Seq<Option<Result<String, String>>>,
    value: u32,
    i: int,
) -> bool {
    &&& 0 <= i < slots.len()
    &&& value < values.len()
    &&& slots[i] is Some
    &&& slots[i]->0 is Ok
    &&& slots[i]->0->Ok_0@ == values[value as int].name
}

/// The slot is null or unnamed, or names a value of the graph.
pub open spec fn slot_known(
    values: Seq<ValueShot>,
    slots: Seq<Option<Result<String, String>>>,
    i: int,
) -> bool {
    slots[i] is None || (slots[i]->0 is Ok && (slots[i]->0->Ok_0@.len() == 0 || exists|value: u32|
        #[trigger] slot_holds(values, slots, value, i)))
}

/// The positions are those of the slots: a value is found at the last slot that holds it, and only
/// values in slots are found.
pub open spec fn positions_told(
    values: Seq<ValueShot>,
    slots: Seq<Option<Result<String, String>>>,
    positions: Map<u32, usize>,
) -> bool {
    &&& forall|value: u32| #[trigger]
        positions.contains_key(value) ==> slot_holds(
            values,
            slots,
            value,
            positions[value] as int,
        )
    &&& forall|value: u32, i: int| #[trigger]
        slot_holds(values, slots, value, i) ==> positions.contains_key(value) && i
            <= positions[value]
}

proof fn lemma_positions(
    values: Seq<ValueShot>,
    slots: Seq<Option<Result<String, String>>>,
    k: int,
)
    requires
        names_distinct(values),
        values.len() <= u32::MAX,
        0 <= k <= slots.len() <= usize::MAX,
    ensures
        positions_below(values, slots, k) is Ok <==> forall|i: int|
            0 <= i < k ==> #[trigger] slot_known(values, slots, i),
        positions_below(values, slots, k) matches Ok(positions) ==> {
            &&& forall|value: u32| #[trigger]
                positions.contains_key(value) ==> positions[value] < k && slot_holds(
                    values,
                    slots,
                    value,
                    positions[value] as int,
                )
            &&& forall|value: u32, i: int| #[trigger]
                slot_holds(values, slots, value, i) && i < k ==> positions.contains_key(value) && i
                    <= positions[value]
        },
    decreases k,
{
    if k > 0 {
        lemma_positions(values, slots, k - 1);
        let before = positions_below(values, slots, k - 1);
        let at = k - 1;
        let slot = slots[at];
        if slot is Some && slot->0 is Ok && slot->0->Ok_0@.len() > 0 {
            let name = slot->0->Ok_0@;
            match value_named(values, name) {
                Some(found) => {
                    assert(slot_holds(values, slots, found, at));
                    assert forall|value: u32| #[trigger]
                        slot_holds(values, slots, value, at) implies value == found by {
                        if value < found {
                            assert(values[value as int].name != values[found as int].name);
                        }
                        if found < value {
                            assert(values[found as int].name != values[value as int].name);
                        }
                    }
                },
                None => {
                    assert forall|value: u32| !#[trigger] slot_holds(values, slots, value, at) by {
                        if slot_holds(values, slots, value, at) {
                            assert(values[value as int].name == name);
                        }
                    }
                    assert(!slot_known(values, slots, at));
                },
            }
        } else {
            assert forall|value: u32| !#[trigger] slot_holds(values, slots, value, at) by {
                if slot_holds(values, slots, value, at) {
                    assert(values[value as int].name.len() > 0);
                }
            }
        }
        if before is Err {
            let i = choose|i: int| 0 <= i < k - 1 && !#[trigger] slot_known(values, slots, i);
            assert(!slot_known(values, slots, i));
        } else if positions_below(values, slots, k) is Err {
            assert(!slot_known(values, slots, at));
        }
        if positions_below(values, slots, k) is Ok {
            let positions = positions_below(values, slots, k)->Ok_0;
            assert(slot_known(values, slots, at));
            assert forall|value: u32, i: int| #[trigger]
                slot_holds(values, slots, value, i) && i < k implies positions.contains_key(value)
                && i <= positions[value] by {
                if i < at {
                    assert(before->Ok_0.contains_key(value));
                }
            }
        }
    }
}

/// The positions on a boundary of the fused node are found exactly if its slots can be read and
/// every name in them is that of a value; then every value in a slot has the position of the last
/// slot that holds it.
pub proof fn law_boundary_positions(values: Seq<ValueShot>, boundary: RawBoundary)
    requires
        names_distinct(values),
        values.len() <= u32::MAX,
    ensures
        boundary_positions(values, boundary) is Ok <==> boundary.slots is Ok && forall|i: int|
            0 <= i < boundary.slots->Ok_0@.len() ==> #[trigger] slot_known(
                values,
                boundary.slots->Ok_0@,
                i,
            ),
        boundary_positions(values, boundary) matches Ok(positions) ==> positions_told(
            values,
            boundary.slots->Ok_0@,
            positions,
        ),
{
    if boundary.slots is Ok {
        let slots = boundary.slots->Ok_0@;
        assert(boundary.slots->Ok_0.len() == slots.len());
        lemma_positions(values, slots, slots.len() as int);
    }
}

/// The surroundings of the outermost graph: the boundary of the fused node and nothing else.
pub open spec fn is_outermost(
    values: Seq<ValueShot>,
    inputs: RawBoundary,
    outputs: RawBoundary,
    keep_names: bool,
    env: PlanEnv,
) -> bool {
    &&& env.root
    &&& env.keep_names == keep_names
    &&& positions_told(values, inputs.slots->Ok_0@, env.ctx_inputs)
    &&& positions_told(values, outputs.slots->Ok_0@, env.ctx_outputs)
    &&& forall|name: Seq<char>| !#[trigger] env.enclosing.contains(name)
    &&& forall|name: Seq<char>| !#[trigger] env.inits.contains_key(name)
    &&& forall|name: Seq<char>| #[trigger]
        env.ctx_names.contains_key(name) ==> exists|value: u32|
            value < values.len() && values[value as int].name == name
                && #[trigger] env.ctx_inputs.contains_key(value) && env.ctx_names[name]
                == env.ctx_inputs[value]
    &&& forall|value: u32| #[trigger]
        env.ctx_inputs.contains_key(value) ==> env.ctx_names.contains_key(
            values[value as int].name,
        ) && env.ctx_names[values[value as int].name] == env.ctx_inputs[value]
}

/// A node with that kind of operator stands where some way leads to.
pub open spec fn stands_somewhere(
    nodes: Seq<NodeModel>,
    test: spec_fn(Seq<char>) -> bool,
) -> bool {
    exists|way: Seq<(int, int)>, j: int| #[trigger] stands_at(nodes, test, way, j)
}

/// Node `j` where the way leads to has that kind of operator.
pub open spec fn stands_at(
    nodes: Seq<NodeModel>,
    test: spec_fn(Seq<char>) -> bool,
    way: Seq<(int, int)>,
    j: int,
) -> bool {
    &&& leads_in(nodes, way)
    &&& 0 <= j < inner_nodes(nodes, way).len()
    &&& test(inner_nodes(nodes, way)[j].op_type)
}

proof fn lemma_occurs_at(
    kind: OpKind,
    nodes: Seq<NodeModel>,
    i: int,
)
    requires
        0 <= i < nodes.len(),
        kind.holds(nodes[i].op_type) || kind_in_bodies(kind, nodes[i].subgraphs),
    ensures
        kind_occurs(kind, nodes),
    decreases nodes.len(),
{
    if i < nodes.len() - 1 {
        let front = nodes.drop_last();
        assert(front[i] == nodes[i]);
        lemma_occurs_at(kind, front, i);
    } else {
        assert(nodes.last() == nodes[i]);
    }
}

proof fn lemma_in_body(kind: OpKind, bodies: Seq<BodyModel>, b: int)
    requires
        0 <= b < bodies.len(),
        kind_occurs(kind, bodies[b].nodes),
    ensures
        kind_in_bodies(kind, bodies),
    decreases bodies.len(),
{
    if b < bodies.len() - 1 {
        let front = bodies.drop_last();
        assert(front[b] == bodies[b]);
        lemma_in_body(kind, front, b);
    } else {
        assert(bodies.last() == bodies[b]);
    }
}

proof fn lemma_found(
    kind: OpKind,
    test: spec_fn(Seq<char>) -> bool,
    nodes: Seq<NodeModel>,
    way: Seq<(int, int)>,
    j: int,
)
    requires
        forall|op: Seq<char>| #[trigger] kind.holds(op) == test(op),
        stands_at(nodes, test, way, j),
    ensures
        kind_occurs(kind, nodes),
    decreases way.len(),
{
    if way.len() == 0 {
        assert(kind.holds(nodes[j].op_type) == test(nodes[j].op_type));
        lemma_occurs_at(kind, nodes, j);
    } else {
        let (i, b) = way[0];
        let body = nodes[i].subgraphs[b];
        assert(stands_at(body.nodes, test, way.drop_first(), j));
        lemma_found(kind, test, body.nodes, way.drop_first(), j);
        lemma_in_body(kind, nodes[i].subgraphs, b);
        lemma_occurs_at(kind, nodes, i);
    }
}

proof fn lemma_way(kind: OpKind, test: spec_fn(Seq<char>) -> bool, nodes: Seq<NodeModel>)
    requires
        forall|op: Seq<char>| #[trigger] kind.holds(op) == test(op),
        kind_occurs(kind, nodes),
    ensures
        stands_somewhere(nodes, test),
    decreases nodes, 1int,
{
    let front = nodes.drop_last();
    let last = nodes.len() - 1;
    assert(nodes.last() == nodes[last]);
    if kind_occurs(kind, front) {
        lemma_way(kind, test, front);
        let (way, j) = choose|way: Seq<(int, int)>, j: int| #[trigger]
            stands_at(front, test, way, j);
        if way.len() > 0 {
            assert(front[way[0].0] == nodes[way[0].0]);
        } else {
            assert(front[j] == nodes[j]);
        }
        assert(stands_at(nodes, test, way, j));
    } else if kind.holds(nodes[last].op_type) {
        assert(stands_at(nodes, test, Seq::empty(), last));
    } else {
        let bodies = nodes[last].subgraphs;
        lemma_way_body(kind, test, bodies);
        let (b, way, j) = choose|b: int, way: Seq<(int, int)>, j: int|
            0 <= b < bodies.len() && #[trigger] stands_at(bodies[b].nodes, test, way, j);
        let longer = seq![(last, b)] + way;
        assert(longer.drop_first() =~= way);
        assert(longer[0] == (last, b));
        assert(stands_at(nodes, test, longer, j));
    }
}

proof fn lemma_way_body(kind: OpKind, test: spec_fn(Seq<char>) -> bool, bodies: Seq<BodyModel>)
    requires
        forall|op: Seq<char>| #[trigger] kind.holds(op) == test(op),
        kind_in_bodies(kind, bodies),
    ensures
        exists|b: int, way: Seq<(int, int)>, j: int|
            0 <= b < bodies.len() && #[trigger] stands_at(bodies[b].nodes, test, way, j),
    decreases bodies, 0int,
{
    let front = bodies.drop_last();
    let last = bodies.len() - 1;
    assert(bodies.last() == bodies[last]);
    if kind_in_bodies(kind, front) {
        lemma_way_body(kind, test, front);
        let (b, way, j) = choose|b: int, way: Seq<(int, int)>, j: int|
            0 <= b < front.len() && #[trigger] stands_at(front[b].nodes, test, way, j);
        assert(front[b] == bodies[b]);
        assert(stands_at(bodies[b].nodes, test, way, j));
    } else {
        lemma_way(kind, test, bodies[last].nodes);
        let (way, j) = choose|way: Seq<(int, int)>, j: int| #[trigger]
            stands_at(bodies[last].nodes, test, way, j);
        assert(stands_at(bodies[last].nodes, test, way, j));
    }
}

/// A draft is the plan of its graph in the surroundings that the boundary of the fused node makes.
/// It has control flow exactly if a conditional, a loop, a scan or a mapping of sequences stands
/// somewhere in it, bodies included; it has a barrier exactly if packed attention does; and it
/// works on 64-bit floating-point tensors exactly if the sidecars say so of one of its nodes.
pub proof fn law_draft(
    snapshot: OrtGraphSnapshot,
    side: SideModel,
    inputs: RawBoundary,
    outputs: RawBoundary,
    keep_names: bool,
)
    requires
        names_distinct(shot_of(snapshot).values),
        shot_of(snapshot).values.len() <= u32::MAX,
    ensures
        drafted(snapshot, side, inputs, outputs, keep_names) matches Ok(draft) ==> {
            &&& inputs.slots is Ok
            &&& outputs.slots is Ok
            &&& exists|env: PlanEnv|
                {
                    &&& #[trigger] is_outermost(
                        shot_of(snapshot).values,
                        inputs,
                        outputs,
                        keep_names,
                        env,
                    )
                    &&& plan_graph(snapshot, side, env) == Ok::<Seq<NodeModel>, Seq<char>>(
                        draft.nodes,
                    )
                }
            &&& draft.has_control_flow == stands_somewhere(
                draft.nodes,
                |op: Seq<char>|
                    op == "If"@ || op == "Loop"@ || op == "Scan"@ || op == "SequenceMap"@,
            )
            &&& draft.has_compile_barrier == stands_somewhere(
                draft.nodes,
                |op: Seq<char>| op == "PackedMultiHeadAttention"@,
            )
            &&& draft.uses_float64 == exists|id: u32|
                id < snapshot.nodes@.len() && (#[trigger] side.nodes[id]).uses_float64
        },
{
    let values = shot_of(snapshot).values;
    law_boundary_positions(values, inputs);
    law_boundary_positions(values, outputs);
    if drafted(snapshot, side, inputs, outputs, keep_names) is Ok {
        let draft = drafted(snapshot, side, inputs, outputs, keep_names)->Ok_0;
        let ins = boundary_positions(values, inputs)->Ok_0;
        let outs = boundary_positions(values, outputs)->Ok_0;
        let env = root_env(values, ins, outs, keep_names);
        lemma_outermost(values, inputs, outputs, keep_names, ins, outs);
        assert(is_outermost(values, inputs, outputs, keep_names, env));
        let flow = |op: Seq<char>|
            op == "If"@ || op == "Loop"@ || op == "Scan"@ || op == "SequenceMap"@;
        let barrier = |op: Seq<char>| op == "PackedMultiHeadAttention"@;
        lemma_kind(OpKind::ControlFlow, flow, draft.nodes);
        lemma_kind(OpKind::CompileBarrier, barrier, draft.nodes);
    }
}

proof fn lemma_told_once(
    values: Seq<ValueShot>,
    slots: Seq<Option<Result<String, String>>>,
    a: Map<u32, usize>,
    b: Map<u32, usize>,
)
    requires
        positions_told(values, slots, a),
        positions_told(values, slots, b),
    ensures
        a == b,
{
    assert forall|value: u32| #[trigger] a.contains_key(value) == b.contains_key(value) by {
        if a.contains_key(value) {
            assert(slot_holds(values, slots, value, a[value] as int));
        }
        if b.contains_key(value) {
            assert(slot_holds(values, slots, value, b[value] as int));
        }
    }
    assert forall|value: u32| #[trigger] a.contains_key(value) implies a[value] == b[value] by {
        assert(slot_holds(values, slots, value, a[value] as int));
        assert(slot_holds(values, slots, value, b[value] as int));
    }
    assert(a =~= b);
}

proof fn lemma_one_outermost(
    values: Seq<ValueShot>,
    inputs: RawBoundary,
    outputs: RawBoundary,
    keep_names: bool,
    a: PlanEnv,
    b: PlanEnv,
)
    requires
        is_outermost(values, inputs, outputs, keep_names, a),
        is_outermost(values, inputs, outputs, keep_names, b),
    ensures
        a == b,
{
    lemma_told_once(values, inputs.slots->Ok_0@, a.ctx_inputs, b.ctx_inputs);
    lemma_told_once(values, outputs.slots->Ok_0@, a.ctx_outputs, b.ctx_outputs);
    assert(a.enclosing =~= b.enclosing);
    assert(a.inits =~= b.inits);
    assert forall|name: Seq<char>| #[trigger] a.ctx_names.contains_key(name) implies
        b.ctx_names.contains_key(name) && b.ctx_names[name] == a.ctx_names[name] by {
        let value = choose|value: u32|
            value < values.len() && values[value as int].name == name
                && #[trigger] a.ctx_inputs.contains_key(value) && a.ctx_names[name]
                == a.ctx_inputs[value];
        assert(b.ctx_inputs.contains_key(value));
    }
    assert forall|name: Seq<char>| #[trigger] b.ctx_names.contains_key(name) implies
        a.ctx_names.contains_key(name) by {
        let value = choose|value: u32|
            value < values.len() && values[value as int].name == name
                && #[trigger] b.ctx_inputs.contains_key(value) && b.ctx_names[name]
                == b.ctx_inputs[value];
        assert(a.ctx_inputs.contains_key(value));
    }
    assert(a.ctx_names =~= b.ctx_names);
}

/// There is a draft exactly if the slots of both boundaries could be read and each is null or
/// unnamed or names a value of the graph, and the graph can be planned with nothing but that
/// boundary around it.
pub proof fn law_draft_made(
    snapshot: OrtGraphSnapshot,
    side: SideModel,
    inputs: RawBoundary,
    outputs: RawBoundary,
    keep_names: bool,
)
    requires
        names_distinct(shot_of(snapshot).values),
        shot_of(snapshot).values.len() <= u32::MAX,
    ensures
        drafted(snapshot, side, inputs, outputs, keep_names) is Ok <==> {
            let values = shot_of(snapshot).values;
            &&& inputs.slots is Ok
            &&& outputs.slots is Ok
            &&& forall|i: int|
                0 <= i < inputs.slots->Ok_0@.len() ==> #[trigger] slot_known(
                    values,
                    inputs.slots->Ok_0@,
                    i,
                )
            &&& forall|i: int|
                0 <= i < outputs.slots->Ok_0@.len() ==> #[trigger] slot_known(
                    values,
                    outputs.slots->Ok_0@,
                    i,
                )
            &&& exists|env: PlanEnv|
                {
                    &&& #[trigger] is_outermost(values, inputs, outputs, keep_names, env)
                    &&& plan_graph(snapshot, side, env) is Ok
                }
        },
{
    let values = shot_of(snapshot).values;
    law_boundary_positions(values, inputs);
    law_boundary_positions(values, outputs);
    if boundary_positions(values, inputs) is Ok && boundary_positions(values, outputs) is Ok {
        let ins = boundary_positions(values, inputs)->Ok_0;
        let outs = boundary_positions(values, outputs)->Ok_0;
        let env = root_env(values, ins, outs, keep_names);
        lemma_outermost(values, inputs, outputs, keep_names, ins, outs);
        assert forall|other: PlanEnv| #[trigger]
            is_outermost(values, inputs, outputs, keep_names, other) implies other == env by {
            lemma_one_outermost(values, inputs, outputs, keep_names, other, env);
        }
    }
}

proof fn lemma_kind(kind: OpKind, test: spec_fn(Seq<char>) -> bool, nodes: Seq<NodeModel>)
    requires
        forall|op: Seq<char>| #[trigger] kind.holds(op) == test(op),
    ensures
        kind_occurs(kind, nodes) == stands_somewhere(nodes, test),
{
    if kind_occurs(kind, nodes) {
        lemma_way(kind, test, nodes);
    }
    if stands_somewhere(nodes, test) {
        let (way, j) = choose|way: Seq<(int, int)>, j: int| #[trigger]
            stands_at(nodes, test, way, j);
        lemma_found(kind, test, nodes, way, j);
    }
}

proof fn lemma_outermost(
    values: Seq<ValueShot>,
    inputs: RawBoundary,
    outputs: RawBoundary,
    keep_names: bool,
    ins: Map<u32, usize>,
    outs: Map<u32, usize>,
)
    requires
        names_distinct(values),
        values.len() <= u32::MAX,
        positions_told(values, inputs.slots->Ok_0@, ins),
        positions_told(values, outputs.slots->Ok_0@, outs),
    ensures
        is_outermost(
            values,
            inputs,
            outputs,
            keep_names,
            root_env(values, ins, outs, keep_names),
        ),
{
    let env = root_env(values, ins, outs, keep_names);
    assert forall|name: Seq<char>| #[trigger] env.ctx_names.contains_key(name) implies exists|
        value: u32,
    |
        value < values.len() && values[value as int].name == name
            && #[trigger] env.ctx_inputs.contains_key(value) && env.ctx_names[name]
            == env.ctx_inputs[value] by {
        let value = value_named(values, name)->0;
        assert(value_named(values, name) is Some);
        assert(value < values.len() && values[value as int].name == name);
        assert(env.ctx_inputs.contains_key(value));
    }
    assert forall|value: u32| #[trigger]
        env.ctx_inputs.contains_key(value) implies env.ctx_names.contains_key(
        values[value as int].name,
    ) && env.ctx_names[values[value as int].name] == env.ctx_inputs[value] by {
        let name = values[value as int].name;
        assert(slot_holds(values, inputs.slots->Ok_0@, value, ins[value] as int));
        let found = value_named(values, name)->0;
        if found < value {
            assert(values[found as int].name != values[value as int].name);
        }
        if value < found {
            assert(values[value as int].name != values[found as int].name);
        }
    }
}

/// The sidecars know body `e` of the graph, and cover it.
pub open spec fn covers_entry(side: SideModel, snapshot: OrtGraphSnapshot, e: int) -> bool {
    let entry = snapshot.subgraphs@[e];
    &&& side_index(side.subgraphs, entry.node, entry.attribute@) is Some
    &&& covers(
        side.subgraphs[side_index(side.subgraphs, entry.node, entry.attribute@)->0].side,
        *entry.snapshot,
    )
}

proof fn lemma_covers_below(side: SideModel, snapshot: OrtGraphSnapshot, k: int)
    requires
        0 <= k <= snapshot.subgraphs@.len(),
    ensures
        covers_below(side, snapshot, k) <==> forall|e: int|
            0 <= e < k ==> #[trigger] covers_entry(side, snapshot, e),
    decreases k,
{
    if k > 0 {
        lemma_covers_below(side, snapshot, k - 1);
        let last = covers_entry(side, snapshot, k - 1);
        assert(covers_below(side, snapshot, k) == (covers_below(side, snapshot, k - 1) && last));
    }
}

/// There is a draft only where the sidecars know every node of the graph and, in turn, of each of
/// its bodies.
pub proof fn law_draft_needs_all_facts(
    snapshot: OrtGraphSnapshot,
    raw_side: RawSidecars,
    inputs: RawBoundary,
    outputs: RawBoundary,
    keep_names: bool,
)
    ensures
        ({
            let side = side_captured(raw_side, snapshot)->Ok_0;
            let known = {
                &&& forall|id: u32|
                    id < snapshot.nodes@.len() ==> #[trigger] side.nodes.contains_key(id)
                &&& forall|e: int|
                    0 <= e < snapshot.subgraphs@.len() ==> #[trigger] covers_entry(
                        side,
                        snapshot,
                        e,
                    )
            };
            &&& covers(side, snapshot) == known
            &&& side_captured(raw_side, snapshot) is Ok && !known ==> draft_of(
                snapshot,
                raw_side,
                inputs,
                outputs,
                keep_names,
            ) == Ok::<Option<DraftModel>, Seq<char>>(None)
            &&& draft_of(snapshot, raw_side, inputs, outputs, keep_names) matches Ok(Some(draft))
                ==> known && drafted(snapshot, side, inputs, outputs, keep_names) == Ok::<
                DraftModel,
                Seq<char>,
            >(draft)
            &&& side_captured(raw_side, snapshot) is Ok && known && drafted(
                snapshot,
                side,
                inputs,
                outputs,
                keep_names,
            ) is Ok ==> draft_of(snapshot, raw_side, inputs, outputs, keep_names) matches Ok(
                Some(_),
            )
        }),
{
    let side = side_captured(raw_side, snapshot)->Ok_0;
    lemma_covers_below(side, snapshot, snapshot.subgraphs@.len() as int);
}

/// Without a graph there is no draft, nor where reading it failed; else the draft is that of a
/// snapshot of the graph.
pub proof fn law_draft_needs_a_graph(
    raw: Option<RawGraph>,
    raw_side: RawSidecars,
    inputs: RawBoundary,
    outputs: RawBoundary,
    keep_names: bool,
)
    ensures
        ({
            let draft = plan_drafted(raw, raw_side, inputs, outputs, keep_names);
            &&& raw is None ==> draft == Err::<Option<DraftModel>, Seq<char>>(
                "ORT supplied a null graph"@,
            )
            &&& raw is Some && captured(raw->0) is Err ==> draft == Err::<
                Option<DraftModel>,
                Seq<char>,
            >(captured(raw->0)->Err_0)
            &&& raw is Some && (exists|snapshot: OrtGraphSnapshot|
                is_snapshot_of(raw->0, snapshot)) ==> exists|snapshot: OrtGraphSnapshot|
                {
                    &&& captured(raw->0) == Ok::<Shot, Seq<char>>(
                        #[trigger] shot_of(snapshot),
                    )
                    &&& draft == draft_of(snapshot, raw_side, inputs, outputs, keep_names)
                }
        }),
{
    if raw is Some && exists|snapshot: OrtGraphSnapshot| is_snapshot_of(raw->0, snapshot) {
        let snapshot = snapshot_read(raw->0);
        assert(is_snapshot_of(raw->0, snapshot));
        assert(captured(raw->0) == Ok::<Shot, Seq<char>>(shot_of(snapshot)));
    }
}

} // verus!
