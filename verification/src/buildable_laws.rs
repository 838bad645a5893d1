//! Which graphs can be planned.

use vstd::prelude::*;

use crate::engine::InitModel;
use crate::init_data::owned_of;
use crate::ir::ir_order;
use crate::lex::{body_list, lemma_body_list_exists};
use crate::plan_builder::{
    body_env, has_order, is_formal, is_produced, order_of, plan_bodies, plan_graph, plan_node,
    plan_nodes, resolve, resolve_below, scope_below, scope_of, visible_names, PlanEnv,
};
use crate::scope_laws::{is_copy, lemma_scope, makes, nearest, outside, takes};
use crate::sidecars::{side_index, SideModel};
use crate::snapshot::{shot_of, well_formed, OrtGraphSnapshot, Shot};

verus! {

/// A value that is read from an input slot is known to have that reader, and comes from somewhere:
/// a node makes it, the graph takes it, it is initialized here or outside, the fused node is given
/// it, or a graph outside knows its name.
pub open spec fn input_comes_from_somewhere(
    shot: Shot,
    side: SideModel,
    env: PlanEnv,
    node: int,
    index: int,
) -> bool {
    shot.nodes[node].input_slots[index] matches Some(value) ==> {
        let name = shot.values[value as int].name;
        &&& shot.ir.values[value as int].uses.contains((node as u32, index as u32))
        &&& {
            ||| shot.ir.values[value as int].producer is Some
            ||| !env.root && takes(shot, name)
            ||| nearest(shot, side, outside(env, name), name) is Some
            ||| env.root && env.ctx_inputs.contains_key(value)
            ||| !env.root && env.ctx_names.contains_key(name)
            ||| env.enclosing.contains(name)
        }
    }
}

/// What bodies of the graph's nodes see around them: the boundary by name, all names that are
/// known outside or taken or made by the graph, and the nearest initializers.
pub open spec fn surrounds_bodies(
    shot: Shot,
    side: SideModel,
    env: PlanEnv,
    around: PlanEnv,
) -> bool {
    &&& !around.root
    &&& around.keep_names == env.keep_names
    &&& around.ctx_inputs == env.ctx_inputs
    &&& around.ctx_names == env.ctx_names
    &&& around.ctx_outputs == Map::<u32, usize>::empty()
    &&& forall|name: Seq<char>| #[trigger]
        around.enclosing.contains(name) <==> env.enclosing.contains(name) || takes(shot, name)
            || makes(shot, name)
    &&& forall|name: Seq<char>| #[trigger]
        around.inits.contains_key(name) <==> nearest(shot, side, outside(env, name), name) is Some
    &&& forall|name: Seq<char>| #[trigger]
        around.inits.contains_key(name) ==> is_copy(
            nearest(shot, side, outside(env, name), name)->0,
            around.inits[name],
        )
}

/// The body at place `e` can be planned with what surrounds it.
pub open spec fn body_is_buildable(
    snapshot: OrtGraphSnapshot,
    side: SideModel,
    env: PlanEnv,
    e: int,
) -> bool {
    let entry = snapshot.subgraphs@[e];
    let at = side_index(side.subgraphs, entry.node, entry.attribute@)->0;
    exists|around: PlanEnv|
        {
            &&& #[trigger] surrounds_bodies(shot_of(snapshot), side, env, around)
            &&& plan_graph(*entry.snapshot, side.subgraphs[at].side, around) is Ok
        }
}

proof fn lemma_copies_agree(source: (InitModel, Option<Seq<u8>>), a: InitModel, b: InitModel)
    requires
        is_copy(source, a),
        is_copy(source, b),
    ensures
        a == b,
{
    match (source.0.owned, source.1) {
        (None, Some(data)) => {
            assert(a.owned->0 =~= b.owned->0);
        },
        _ => {},
    }
}

proof fn lemma_surroundings_agree(
    shot: Shot,
    side: SideModel,
    env: PlanEnv,
    a: PlanEnv,
    b: PlanEnv,
)
    requires
        surrounds_bodies(shot, side, env, a),
        surrounds_bodies(shot, side, env, b),
    ensures
        a == b,
{
    assert(a.enclosing =~= b.enclosing);
    assert forall|name: Seq<char>| #[trigger] a.inits.contains_key(name) implies a.inits[name]
        == b.inits[name] by {
        assert(b.inits.contains_key(name));
        lemma_copies_agree(
            nearest(shot, side, outside(env, name), name)->0,
            a.inits[name],
            b.inits[name],
        );
    }
    assert forall|name: Seq<char>| a.inits.contains_key(name) == #[trigger] b.inits.contains_key(
        name,
    ) by {}
    assert(a.inits =~= b.inits);
}

proof fn lemma_surroundings(shot: Shot, side: SideModel, env: PlanEnv)
    requires
        shot.values.len() <= u32::MAX + 1,
        scope_of(shot, side, env) is Ok,
    ensures
        surrounds_bodies(
            shot,
            side,
            env,
            body_env(shot, env, scope_of(shot, side, env)->Ok_0),
        ),
{
    let scope = scope_of(shot, side, env)->Ok_0;
    let around = body_env(shot, env, scope);
    assert forall|name: Seq<char>| #[trigger]
        around.enclosing.contains(name) <==> env.enclosing.contains(name) || takes(shot, name)
            || makes(shot, name) by {
        assert(is_formal(shot, name) == takes(shot, name));
        assert(is_produced(shot, name) == makes(shot, name));
        assert(visible_names(shot, env.enclosing).contains(name) == (env.enclosing.contains(name)
            || is_formal(shot, name) || is_produced(shot, name)));
    }
    assert forall|name: Seq<char>|
        #![trigger around.inits.contains_key(name)]
        (around.inits.contains_key(name) <==> nearest(shot, side, outside(env, name), name) is Some)
            && (around.inits.contains_key(name) ==> is_copy(
            nearest(shot, side, outside(env, name), name)->0,
            around.inits[name],
        )) by {
        lemma_scope(shot, side, env, name);
    }
}

proof fn lemma_scope_made(
    shot: Shot,
    side: SideModel,
    base: Map<Seq<char>, InitModel>,
    k: int,
)
    requires
        0 <= k <= shot.values.len() <= u32::MAX + 1,
    ensures
        scope_below(shot, side, base, k) is Ok <==> forall|id: u32|
            id < k && side.initializers.contains_key(id) ==> owned_of(
                (#[trigger] side.initializers[id]).0,
                side.initializers[id].1,
            ) is Ok,
    decreases k,
{
    if k > 0 {
        lemma_scope_made(shot, side, base, k - 1);
        let last = (k - 1) as u32;
        let mine = side.initializers[last];
        if scope_below(shot, side, base, k) is Ok {
            assert forall|id: u32| id < k && side.initializers.contains_key(id) implies owned_of(
                (#[trigger] side.initializers[id]).0,
                side.initializers[id].1,
            ) is Ok by {
                assert(id < k - 1 || id == last);
            }
        }
    }
}

proof fn lemma_inputs_resolve(
    shot: Shot,
    env: PlanEnv,
    scope: Map<Seq<char>, InitModel>,
    node: int,
    k: int,
)
    requires
        0 <= k,
    ensures
        resolve_below(shot, env, scope, node, k) is Ok <==> forall|i: int|
            0 <= i < k ==> (#[trigger] resolve(shot, env, scope, node, i)) is Ok,
    decreases k,
{
    if k > 0 {
        lemma_inputs_resolve(shot, env, scope, node, k - 1);
        let last = resolve(shot, env, scope, node, k - 1);
    }
}

proof fn lemma_bodies_made(
    snapshot: OrtGraphSnapshot,
    side: SideModel,
    env: PlanEnv,
    node: u32,
    list: Seq<int>,
)
    requires
        forall|x: int| 0 <= x < list.len() ==> 0 <= #[trigger] list[x] < snapshot.subgraphs@.len(),
    ensures
        plan_bodies(snapshot, side, env, node, list) is Ok <==> forall|x: int|
            0 <= x < list.len() ==> {
                let entry = snapshot.subgraphs@[#[trigger] list[x]];
                let at = side_index(side.subgraphs, node, entry.attribute@)->0;
                plan_graph(*entry.snapshot, side.subgraphs[at].side, env) is Ok
            },
    decreases list.len(),
{
    if list.len() > 0 {
        let front = list.drop_last();
        assert forall|x: int| 0 <= x < front.len() implies #[trigger] front[x] == list[x] by {}
        lemma_bodies_made(snapshot, side, env, node, front);
        assert(list.last() == list[list.len() - 1]);
        if plan_bodies(snapshot, side, env, node, list) is Ok {
            assert forall|x: int| 0 <= x < list.len() implies {
                let entry = snapshot.subgraphs@[#[trigger] list[x]];
                let at = side_index(side.subgraphs, node, entry.attribute@)->0;
                plan_graph(*entry.snapshot, side.subgraphs[at].side, env) is Ok
            } by {
                if x < front.len() {
                    assert(front[x] == list[x]);
                }
            }
        } else if forall|x: int|
            0 <= x < list.len() ==> {
                let entry = snapshot.subgraphs@[#[trigger] list[x]];
                let at = side_index(side.subgraphs, node, entry.attribute@)->0;
                plan_graph(*entry.snapshot, side.subgraphs[at].side, env) is Ok
            } {
            assert(plan_bodies(snapshot, side, env, node, front) is Ok);
        }
    }
}

proof fn lemma_nodes_made(
    snapshot: OrtGraphSnapshot,
    side: SideModel,
    env: PlanEnv,
    scope: Map<Seq<char>, InitModel>,
    order: Seq<u32>,
)
    ensures
        plan_nodes(snapshot, side, env, scope, order) is Ok <==> forall|i: int|
            0 <= i < order.len() ==> plan_node(snapshot, side, env, scope, #[trigger] order[i]) is Ok,
    decreases order.len(),
{
    if order.len() > 0 {
        let front = order.drop_last();
        assert forall|i: int| 0 <= i < front.len() implies #[trigger] front[i] == order[i] by {}
        lemma_nodes_made(snapshot, side, env, scope, front);
        assert(order.last() == order[order.len() - 1]);
        if plan_nodes(snapshot, side, env, scope, order) is Ok {
            assert forall|i: int| 0 <= i < order.len() implies plan_node(
                snapshot,
                side,
                env,
                scope,
                #[trigger] order[i],
            ) is Ok by {
                if i < front.len() {
                    assert(front[i] == order[i]);
                }
            }
        } else if forall|i: int|
            0 <= i < order.len() ==> plan_node(snapshot, side, env, scope, #[trigger] order[i]) is Ok {
            assert(plan_nodes(snapshot, side, env, scope, front) is Ok);
        }
    }
}

/// Every node stands in the order.
proof fn lemma_all_listed(order: Seq<u32>, n: u32)
    requires
        order.no_duplicates(),
        forall|i: int| 0 <= i < order.len() ==> #[trigger] order[i] < order.len(),
        n < order.len(),
    ensures
        order.contains(n),
{
    let ints = Seq::new(order.len(), |i: int| order[i] as int);
    assert(ints.no_duplicates());
    ints.unique_seq_to_set();
    let all = vstd::set_lib::set_int_range(0, order.len() as int);
    vstd::set_lib::lemma_int_range(0, order.len() as int);
    assert(ints.to_set().subset_of(all)) by {
        assert forall|x: int| ints.to_set().contains(x) implies all.contains(x) by {
            let i = choose|i: int| 0 <= i < ints.len() && ints[i] == x;
            assert(order[i] < order.len());
        }
    }
    vstd::set_lib::lemma_subset_equality(ints.to_set(), all);
    assert(all.contains(n as int));
    assert(ints.contains(n as int));
    let i = choose|i: int| 0 <= i < ints.len() && ints[i] == n as int;
    assert(order[i] == n);
}

proof fn lemma_node_made(
    snapshot: OrtGraphSnapshot,
    side: SideModel,
    env: PlanEnv,
    id: u32,
)
    requires
        well_formed(snapshot),
        scope_of(shot_of(snapshot), side, env) is Ok,
    ensures
        plan_node(
            snapshot,
            side,
            env,
            scope_of(shot_of(snapshot), side, env)->Ok_0,
            id,
        ) is Ok <==> {
            &&& forall|k: int|
                0 <= k < shot_of(snapshot).nodes[id as int].input_slots.len()
                    ==> #[trigger] input_comes_from_somewhere(
                    shot_of(snapshot),
                    side,
                    env,
                    id as int,
                    k,
                )
            &&& forall|e: int|
                0 <= e < snapshot.subgraphs@.len() && snapshot.subgraphs@[e].node == id
                    ==> #[trigger] body_is_buildable(snapshot, side, env, e)
        },
{
    let shot = shot_of(snapshot);
    let entries = snapshot.subgraphs@;
    let scope = scope_of(shot, side, env)->Ok_0;
    let slots = shot.nodes[id as int].input_slots;
    let around = body_env(shot, env, scope);
    let list = body_list(entries, id);
    lemma_surroundings(shot, side, env);
    lemma_inputs_resolve(shot, env, scope, id as int, slots.len() as int);
    assert forall|k: int| 0 <= k < slots.len() implies (#[trigger] resolve(
        shot,
        env,
        scope,
        id as int,
        k,
    )) is Ok == input_comes_from_somewhere(shot, side, env, id as int, k) by {
        if slots[k] is Some {
            let name = shot.values[slots[k]->0 as int].name;
            lemma_scope(shot, side, env, name);
            assert(is_formal(shot, name) == takes(shot, name));
        }
    }
    lemma_body_list_exists(entries, id);
    assert forall|x: int| 0 <= x < list.len() implies 0 <= #[trigger] list[x] < entries.len()
        && entries[list[x]].node == id by {
        assert(list.contains(list[x]));
    }
    lemma_bodies_made(snapshot, side, around, id, list);
    assert forall|e: int|
        0 <= e < entries.len() && entries[e].node == id implies #[trigger] body_is_buildable(
        snapshot,
        side,
        env,
        e,
    ) == plan_graph(
        *entries[e].snapshot,
        side.subgraphs[side_index(side.subgraphs, id, entries[e].attribute@)->0].side,
        around,
    ) is Ok by {
        if body_is_buildable(snapshot, side, env, e) {
            let at = side_index(side.subgraphs, id, entries[e].attribute@)->0;
            let other = choose|other: PlanEnv|
                {
                    &&& #[trigger] surrounds_bodies(shot, side, env, other)
                    &&& plan_graph(*entries[e].snapshot, side.subgraphs[at].side, other) is Ok
                };
            lemma_surroundings_agree(shot, side, env, around, other);
        }
    }
    let inputs_known = forall|k: int|
        0 <= k < slots.len() ==> #[trigger] input_comes_from_somewhere(
            shot,
            side,
            env,
            id as int,
            k,
        );
    let bodies_known = forall|e: int|
        0 <= e < entries.len() && entries[e].node == id ==> #[trigger] body_is_buildable(
            snapshot,
            side,
            env,
            e,
        );
    let resolved = resolve_below(shot, env, scope, id as int, slots.len() as int) is Ok;
    let bodies = plan_bodies(snapshot, side, around, id, list) is Ok;
    assert(resolved == inputs_known) by {
        if resolved {
            assert forall|k: int|
                0 <= k < slots.len() implies #[trigger] input_comes_from_somewhere(
                shot,
                side,
                env,
                id as int,
                k,
            ) by {
                assert(resolve(shot, env, scope, id as int, k) is Ok);
            }
        }
        if inputs_known {
            assert forall|k: int| 0 <= k < slots.len() implies (#[trigger] resolve(
                shot,
                env,
                scope,
                id as int,
                k,
            )) is Ok by {
                assert(input_comes_from_somewhere(shot, side, env, id as int, k));
            }
        }
    }
    assert(bodies == bodies_known) by {
        if bodies {
            assert forall|e: int|
                0 <= e < entries.len() && entries[e].node == id implies
                #[trigger] body_is_buildable(snapshot, side, env, e) by {
                assert(list.contains(e));
                let x = choose|x: int| 0 <= x < list.len() && list[x] == e;
                assert(entries[list[x]].node == id);
            }
        }
        if bodies_known {
            assert forall|x: int| 0 <= x < list.len() implies {
                let entry = snapshot.subgraphs@[#[trigger] list[x]];
                let at = side_index(side.subgraphs, id, entry.attribute@)->0;
                plan_graph(*entry.snapshot, side.subgraphs[at].side, around) is Ok
            } by {
                assert(body_is_buildable(snapshot, side, env, list[x]));
            }
        }
    }
}

/// A graph can be planned exactly if each of its initializers can be given its bytes, its nodes
/// have an order, every value that a node reads comes from somewhere, and every body can be
/// planned.
pub proof fn law_buildable_graphs(snapshot: OrtGraphSnapshot, side: SideModel, env: PlanEnv)
    requires
        well_formed(snapshot),
    ensures
        ({
            let shot = shot_of(snapshot);
            plan_graph(snapshot, side, env) is Ok <==> {
                &&& forall|id: u32|
                    id < shot.values.len() && side.initializers.contains_key(id) ==> owned_of(
                        (#[trigger] side.initializers[id]).0,
                        side.initializers[id].1,
                    ) is Ok
                &&& exists|order: Seq<u32>| ir_order(shot.ir, order)
                &&& forall|n: u32, k: int|
                    n < shot.ir.nodes.len() && 0 <= k < shot.nodes[n as int].input_slots.len()
                        ==> #[trigger] input_comes_from_somewhere(shot, side, env, n as int, k)
                &&& forall|e: int|
                    0 <= e < snapshot.subgraphs@.len() && snapshot.subgraphs@[e].node
                        < shot.ir.nodes.len() ==> #[trigger] body_is_buildable(
                        snapshot,
                        side,
                        env,
                        e,
                    )
            }
        }),
{
    let shot = shot_of(snapshot);
    let base = if env.root {
        Map::empty()
    } else {
        env.inits
    };
    lemma_scope_made(shot, side, base, shot.values.len() as int);
    if scope_of(shot, side, env) is Ok && has_order(shot.ir) {
        let scope = scope_of(shot, side, env)->Ok_0;
        let order = order_of(shot.ir);
        assert(ir_order(shot.ir, order));
        lemma_nodes_made(snapshot, side, env, scope, order);
        if plan_nodes(snapshot, side, env, scope, order) is Ok {
            assert forall|n: u32, k: int|
                n < shot.ir.nodes.len() && 0 <= k
                    < shot.nodes[n as int].input_slots.len() implies
                #[trigger] input_comes_from_somewhere(shot, side, env, n as int, k) by {
                lemma_all_listed(order, n);
                let i = choose|i: int| 0 <= i < order.len() && order[i] == n;
                assert(plan_node(snapshot, side, env, scope, order[i]) is Ok);
                lemma_node_made(snapshot, side, env, n);
            }
            assert forall|e: int|
                0 <= e < snapshot.subgraphs@.len() && snapshot.subgraphs@[e].node
                    < shot.ir.nodes.len() implies #[trigger] body_is_buildable(
                snapshot,
                side,
                env,
                e,
            ) by {
                let n = snapshot.subgraphs@[e].node;
                lemma_all_listed(order, n);
                let i = choose|i: int| 0 <= i < order.len() && order[i] == n;
                assert(plan_node(snapshot, side, env, scope, order[i]) is Ok);
                lemma_node_made(snapshot, side, env, n);
            }
        } else {
            let i = choose|i: int|
                0 <= i < order.len() && !(plan_node(
                    snapshot,
                    side,
                    env,
                    scope,
                    #[trigger] order[i],
                ) is Ok);
            lemma_node_made(snapshot, side, env, order[i]);
        }
    }
}

} // verus!
