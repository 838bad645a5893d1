//! From a snapshot and its sidecars to the nodes of an execution plan.

use std::collections::HashMap;

use vstd::hash_map::StringHashMap;
use vstd::prelude::*;
use vstd::string::StringExecFns;

use crate::digraph::ints;
use crate::engine::{
    body_model, body_models, name_models, node_model, node_models, out_models, tensor_models,
    BodyModel, InitData, InitModel, NodeDesc, NodeModel, OutModel, OutRef, Src, SubgraphDesc,
    TensorModel, TensorRef,
};
use crate::init_data::{own_init_data, owned_of};
use crate::init_scope::InitScope;
use crate::ir::{ir_order, ir_ready, ir_state, producer, topological_order, uses, IrState, ValueId};
use crate::lex::{body_list, sorted_bodies};
use crate::names::NameSet;
use crate::shape_const::{mark_nodes, mark_shape_constants};
use crate::sidecars::{
    lemma_entry_well_formed, side_bodies, side_index, side_model, GraphSidecars, SideBody,
    SideModel, SidecarEntry,
};
use crate::snapshot::{
    shot_of, slots_live, value_dtype, well_formed, NodeMetadata, OrtGraphSnapshot, Shot,
    SubgraphEntry,
};
use crate::text::{decimal, decimal_text, join2, join3, same_text};

verus! {

broadcast use vstd::std_specs::hash::group_hash_axioms;

/// What surrounds the graph that is being planned.
#[verifier::ext_equal]
pub ghost struct PlanEnv {
    /// Positions of the fused node's inputs, by value and by name.
    pub ctx_inputs: Map<u32, usize>,
    pub ctx_names: Map<Seq<char>, usize>,
    /// Positions of the fused node's outputs.
    pub ctx_outputs: Map<u32, usize>,
    /// Names that are visible from outside.
    pub enclosing: Set<Seq<char>>,
    /// Initializers that are visible from outside.
    pub inits: Map<Seq<char>, InitModel>,
    /// The graph is not the body of a node.
    pub root: bool,
    /// Node names and ids are kept for tracing.
    pub keep_names: bool,
}

/// The initializers of the first `k` values, with bytes of their own, on top of `base`.
pub open spec fn scope_below(
    shot: Shot,
    side: SideModel,
    base: Map<Seq<char>, InitModel>,
    k: int,
) -> Result<Map<Seq<char>, InitModel>, Seq<char>>
    decreases k,
{
    if k <= 0 {
        Ok(base)
    } else {
        match scope_below(shot, side, base, k - 1) {
            Err(failure) => Err(failure),
            Ok(before) => {
                let id = (k - 1) as u32;
                if side.initializers.contains_key(id) {
                    match owned_of(side.initializers[id].0, side.initializers[id].1) {
                        Err(failure) => Err(failure),
                        Ok(init) => Ok(before.insert(shot.values[k - 1].name, init)),
                    }
                } else {
                    Ok(before)
                }
            },
        }
    }
}

/// The initializers visible in a graph: its own hide those from outside.
pub open spec fn scope_of(
    shot: Shot,
    side: SideModel,
    env: PlanEnv,
) -> Result<Map<Seq<char>, InitModel>, Seq<char>> {
    scope_below(
        shot,
        side,
        if env.root {
            Map::empty()
        } else {
            env.inits
        },
        shot.values.len() as int,
    )
}

/// `name` is a formal input of the graph.
pub open spec fn is_formal(shot: Shot, name: Seq<char>) -> bool {
    exists|i: int|
        0 <= i < shot.inputs.len() && (#[trigger] shot.inputs[i]) is Some
            && shot.values[shot.inputs[i]->0 as int].name == name
}

/// `name` is an output of one of the graph's nodes.
pub open spec fn is_produced(shot: Shot, name: Seq<char>) -> bool {
    exists|n: int, i: int|
        0 <= n < shot.nodes.len() && 0 <= i < shot.nodes[n].output_slots.len() && (
        #[trigger] shot.nodes[n].output_slots[i]) is Some
            && shot.values[shot.nodes[n].output_slots[i]->0 as int].name == name
}

/// The names that the bodies of a graph's nodes can see.
pub open spec fn visible_names(shot: Shot, enclosing: Set<Seq<char>>) -> Set<Seq<char>> {
    Set::new(
        |name: Seq<char>| enclosing.contains(name) || is_formal(shot, name) || is_produced(
            shot,
            name,
        ),
    )
}

/// A reference to a tensor.
pub open spec fn tensor_model(
    name: Seq<char>,
    source: Src,
    ctx_index: usize,
    init: Option<InitModel>,
) -> TensorModel {
    TensorModel { name, source, ctx_index, constant: false, shape_const: false, init }
}

/// Where the value in an input slot comes from. What the graph produces or takes as a formal input
/// goes before initializers, those before the fused node's inputs, those before outer names.
pub open spec fn resolve(
    shot: Shot,
    env: PlanEnv,
    scope: Map<Seq<char>, InitModel>,
    node: int,
    index: int,
) -> Result<TensorModel, Seq<char>> {
    match shot.nodes[node].input_slots[index] {
        None => Ok(tensor_model(Seq::empty(), Src::Absent, 0, None)),
        Some(value) => {
            let name = shot.values[value as int].name;
            if !shot.ir.values[value as int].uses.contains((node as u32, index as u32)) {
                Err(
                    "optimized graph IR is missing consumer link for "@ + shot.nodes[node].name
                        + " input "@ + decimal(index as nat),
                )
            } else if shot.ir.values[value as int].producer is Some || (!env.root && is_formal(
                shot,
                name,
            )) {
                Ok(tensor_model(name, Src::Intermediate, 0, None))
            } else if scope.contains_key(name) {
                Ok(tensor_model(name, Src::Initializer, 0, Some(scope[name])))
            } else if env.root && env.ctx_inputs.contains_key(value) {
                Ok(tensor_model(name, Src::CtxInput, env.ctx_inputs[value], None))
            } else if !env.root && env.ctx_names.contains_key(name) {
                Ok(tensor_model(name, Src::CtxInput, env.ctx_names[name], None))
            } else if env.enclosing.contains(name) {
                Ok(tensor_model(name, Src::Intermediate, 0, None))
            } else {
                Err("MLX could not resolve subgraph input "@ + name)
            }
        },
    }
}

/// The first `k` inputs of a node.
pub open spec fn resolve_below(
    shot: Shot,
    env: PlanEnv,
    scope: Map<Seq<char>, InitModel>,
    node: int,
    k: int,
) -> Result<Seq<TensorModel>, Seq<char>>
    decreases k,
{
    if k <= 0 {
        Ok(Seq::empty())
    } else {
        match resolve_below(shot, env, scope, node, k - 1) {
            Err(failure) => Err(failure),
            Ok(before) => match resolve(shot, env, scope, node, k - 1) {
                Err(failure) => Err(failure),
                Ok(tensor) => Ok(before.push(tensor)),
            },
        }
    }
}

/// An output: external where the fused node hands it out.
pub open spec fn out_of(shot: Shot, env: PlanEnv, slot: Option<u32>) -> OutModel {
    match slot {
        None => OutModel { name: Seq::empty(), external: false, ctx_index: 0, otype: 0 },
        Some(value) => {
            let external = env.root && env.ctx_outputs.contains_key(value);
            OutModel {
                name: shot.values[value as int].name,
                external,
                ctx_index: if external {
                    env.ctx_outputs[value]
                } else {
                    0
                },
                otype: match value_dtype(shot.values[value as int]) {
                    Some(dtype) => dtype as u32,
                    None => 0,
                },
            }
        },
    }
}

/// The names in a list of slots; a hole has the empty name.
pub open spec fn slot_names(shot: Shot, slots: Seq<Option<u32>>) -> Seq<Seq<char>> {
    Seq::new(
        slots.len(),
        |i: int|
            match slots[i] {
                Some(value) => shot.values[value as int].name,
                None => Seq::empty(),
            },
    )
}

/// What surrounds a body.
pub open spec fn body_env(
    shot: Shot,
    env: PlanEnv,
    scope: Map<Seq<char>, InitModel>,
) -> PlanEnv {
    PlanEnv {
        ctx_outputs: Map::empty(),
        enclosing: visible_names(shot, env.enclosing),
        inits: scope,
        root: false,
        ..env
    }
}

/// The graph has a topological order.
pub open spec fn has_order(ir: IrState) -> bool {
    exists|order: Seq<u32>| ir_order(ir, order)
}

/// The topological order of a graph.
pub open spec fn order_of(ir: IrState) -> Seq<u32> {
    choose|order: Seq<u32>| ir_order(ir, order)
}

/// There is one such order.
pub proof fn lemma_order_unique(ir: IrState, order: Seq<u32>)
    requires
        ir_order(ir, order),
    ensures
        has_order(ir),
        order_of(ir) == order,
{
    let other = order_of(ir);
    assert(ir_order(ir, other));
    lemma_orders_agree(ir, order, other, order.len() as int);
    assert(order.take(order.len() as int) =~= order);
    assert(other.take(other.len() as int) =~= other);
}

proof fn lemma_orders_agree(ir: IrState, a: Seq<u32>, b: Seq<u32>, k: int)
    requires
        ir_order(ir, a),
        ir_order(ir, b),
        0 <= k <= a.len(),
    ensures
        a.take(k) == b.take(k),
    decreases k,
{
    if k > 0 {
        lemma_orders_agree(ir, a, b, k - 1);
        let i = k - 1;
        let done = a.take(i);
        assert(ir_ready(ir, a.take(i), a[i] as int));
        assert(ir_ready(ir, b.take(i), b[i] as int));
        assert(!done.contains(a[i])) by {
            if done.contains(a[i]) {
                let j = choose|j: int| 0 <= j < done.len() && done[j] == a[i];
                assert(a[j] == a[i]);
            }
        }
        assert(!done.contains(b[i])) by {
            if done.contains(b[i]) {
                let j = choose|j: int| 0 <= j < b.take(i).len() && b.take(i)[j] == b[i];
                assert(b[j] == b[i]);
            }
        }
        if a[i] < b[i] {
            assert(!ir_ready(ir, b.take(i), a[i] as int));
        } else if b[i] < a[i] {
            assert(!ir_ready(ir, a.take(i), b[i] as int));
        }
        assert(a.take(k) =~= done.push(a[i]));
        assert(b.take(k) =~= b.take(i).push(b[i]));
    } else {
        assert(a.take(k) =~= b.take(k));
    }
}

/// The bodies listed by `list`.
pub open spec fn plan_bodies(
    snapshot: OrtGraphSnapshot,
    side: SideModel,
    env: PlanEnv,
    node: u32,
    list: Seq<int>,
) -> Result<Seq<BodyModel>, Seq<char>>
    decreases snapshot, 0int, list.len(),
{
    if list.len() == 0 {
        Ok(Seq::empty())
    } else {
        match plan_bodies(snapshot, side, env, node, list.drop_last()) {
            Err(failure) => Err(failure),
            Ok(before) => if 0 <= list.last() < snapshot.subgraphs@.len() {
                let entry = snapshot.subgraphs@[list.last()];
                let child = shot_of(*entry.snapshot);
                let at = side_index(side.subgraphs, node, entry.attribute@)->0;
                match plan_graph(*entry.snapshot, side.subgraphs[at].side, env) {
                    Err(failure) => Err(failure),
                    Ok(nodes) => Ok(
                        before.push(
                            BodyModel {
                                attr_name: entry.attribute@,
                                input_names: slot_names(child, child.inputs),
                                output_names: slot_names(child, child.outputs),
                                nodes,
                            },
                        ),
                    ),
                }
            } else {
                Ok(before)
            },
        }
    }
}

/// One node of the plan.
pub open spec fn plan_node(
    snapshot: OrtGraphSnapshot,
    side: SideModel,
    env: PlanEnv,
    scope: Map<Seq<char>, InitModel>,
    id: u32,
) -> Result<NodeModel, Seq<char>>
    decreases snapshot, 1int, 0int,
{
    let shot = shot_of(snapshot);
    let node = shot.nodes[id as int];
    let facts = side.nodes[id];
    match resolve_below(shot, env, scope, id as int, node.input_slots.len() as int) {
        Err(failure) => Err(failure),
        Ok(inputs) => match plan_bodies(
            snapshot,
            side,
            body_env(shot, env, scope),
            id,
            body_list(snapshot.subgraphs@, id),
        ) {
            Err(failure) => Err(failure),
            Ok(subgraphs) => Ok(
                NodeModel {
                    op_type: node.op_type,
                    domain: node.domain,
                    since_version: node.since_version,
                    shape_safety: facts.shape_safety,
                    node_id: if env.keep_names {
                        node.ort_node_id
                    } else {
                        0
                    },
                    name: if env.keep_names {
                        node.name
                    } else {
                        Seq::empty()
                    },
                    attributes: *facts.attributes,
                    inputs,
                    outputs: Seq::new(
                        node.output_slots.len(),
                        |i: int| out_of(shot, env, node.output_slots[i]),
                    ),
                    subgraphs,
                },
            ),
        },
    }
}

/// The nodes listed by `order`.
pub open spec fn plan_nodes(
    snapshot: OrtGraphSnapshot,
    side: SideModel,
    env: PlanEnv,
    scope: Map<Seq<char>, InitModel>,
    order: Seq<u32>,
) -> Result<Seq<NodeModel>, Seq<char>>
    decreases snapshot, 2int, order.len(),
{
    if order.len() == 0 {
        Ok(Seq::empty())
    } else {
        match plan_nodes(snapshot, side, env, scope, order.drop_last()) {
            Err(failure) => Err(failure),
            Ok(before) => match plan_node(snapshot, side, env, scope, order.last()) {
                Err(failure) => Err(failure),
                Ok(node) => Ok(before.push(node)),
            },
        }
    }
}

/// The nodes of a graph in the order they run, with the inputs that shapes fix marked.
pub open spec fn plan_graph(
    snapshot: OrtGraphSnapshot,
    side: SideModel,
    env: PlanEnv,
) -> Result<Seq<NodeModel>, Seq<char>>
    decreases snapshot, 3int, 0int,
{
    let shot = shot_of(snapshot);
    match scope_of(shot, side, env) {
        Err(failure) => Err(failure),
        Ok(scope) => if !has_order(shot.ir) {
            Err("optimized graph IR has no topological order: cycle detected in graph"@)
        } else {
            match plan_nodes(snapshot, side, env, scope, order_of(shot.ir)) {
                Err(failure) => Err(failure),
                Ok(nodes) => Ok(mark_nodes(nodes, scope.dom())),
            }
        },
    }
}

/// The sidecars know every node and every body of the snapshot.
pub open spec fn covers(side: SideModel, snapshot: OrtGraphSnapshot) -> bool
    decreases snapshot, 1int, 0int,
{
    &&& forall|id: u32|
        id < snapshot.nodes@.len() ==> #[trigger] side.nodes.contains_key(id)
    &&& covers_below(side, snapshot, snapshot.subgraphs@.len() as int)
}

/// The sidecars know the first `k` bodies of the snapshot.
pub open spec fn covers_below(side: SideModel, snapshot: OrtGraphSnapshot, k: int) -> bool
    decreases snapshot, 0int, k,
{
    k <= 0 || (covers_below(side, snapshot, k - 1) && (k <= snapshot.subgraphs@.len() ==> {
        let entry = snapshot.subgraphs@[k - 1];
        side_index(side.subgraphs, entry.node, entry.attribute@) matches Some(i) && covers(
            side.subgraphs[i].side,
            *entry.snapshot,
        )
    }))
}

proof fn lemma_covers_at(side: SideModel, snapshot: OrtGraphSnapshot, k: int, i: int)
    requires
        covers_below(side, snapshot, k),
        0 <= i < k,
        i < snapshot.subgraphs@.len(),
    ensures
        ({
            let entry = snapshot.subgraphs@[i];
            side_index(side.subgraphs, entry.node, entry.attribute@) matches Some(j) && covers(
                side.subgraphs[j].side,
                *entry.snapshot,
            )
        }),
    decreases k,
{
    if i < k - 1 {
        lemma_covers_at(side, snapshot, k - 1, i);
    }
}

proof fn lemma_side_bodies(entries: Seq<SidecarEntry>)
    ensures
        side_bodies(entries).len() == entries.len(),
        forall|i: int|
            0 <= i < entries.len() ==> #[trigger] side_bodies(entries)[i] == (SideBody {
                node: entries[i].node,
                attribute: entries[i].attribute@,
                side: side_model(entries[i].sidecars),
            }),
    decreases entries.len(),
{
    if entries.len() > 0 {
        let front = entries.drop_last();
        lemma_side_bodies(front);
        assert forall|i: int| 0 <= i < entries.len() implies #[trigger] side_bodies(entries)[i]
            == (SideBody {
            node: entries[i].node,
            attribute: entries[i].attribute@,
            side: side_model(entries[i].sidecars),
        }) by {
            if i < front.len() {
                assert(front[i] == entries[i]);
                assert(side_bodies(front)[i] == side_bodies(entries)[i]);
            }
        }
    }
}

/// Finds the sidecars of a node's body.
fn find_sidecar(entries: &Vec<SidecarEntry>, node: u32, attribute: &str) -> (index: Option<usize>)
    ensures
        match index {
            Some(i) => side_index(side_bodies(entries@), node, attribute@) == Some(i as int) && i
                < entries@.len(),
            None => side_index(side_bodies(entries@), node, attribute@) is None,
        },
{
    let ghost bodies = side_bodies(entries@);
    let mut at: usize = entries.len();
    proof {
        lemma_side_bodies(entries@);
        assert(bodies.take(at as int) =~= bodies);
    }
    while at > 0
        invariant
            at <= entries@.len(),
            bodies == side_bodies(entries@),
            bodies.len() == entries@.len(),
            forall|i: int|
                0 <= i < entries@.len() ==> #[trigger] bodies[i] == (SideBody {
                    node: entries@[i].node,
                    attribute: entries@[i].attribute@,
                    side: side_model(entries@[i].sidecars),
                }),
            side_index(bodies, node, attribute@) == side_index(
                bodies.take(at as int),
                node,
                attribute@,
            ),
        decreases at,
    {
        proof {
            assert(bodies.take(at as int).drop_last() =~= bodies.take(at - 1));
            assert(bodies.take(at as int).last() == bodies[at - 1]);
        }
        at = at - 1;
        if entries[at].node == node && same_text(entries[at].attribute.as_str(), attribute) {
            return Some(at);
        }
    }
    None
}

impl GraphSidecars {
    /// Whether the sidecars know every node and every body of the snapshot.
    pub fn covers(&self, snapshot: &OrtGraphSnapshot) -> (covered: bool)
        requires
            well_formed(*snapshot),
        ensures
            covered == covers(side_model(*self), *snapshot),
        decreases *snapshot,
    {
        let mut id: usize = 0;
        while id < snapshot.nodes.len()
            invariant
                id <= snapshot.nodes@.len(),
                well_formed(*snapshot),
                forall|n: u32| n < id ==> #[trigger] self.nodes@.contains_key(n),
            decreases snapshot.nodes@.len() - id,
        {
            if !self.nodes.contains_key(&(id as u32)) {
                assert(!side_model(*self).nodes.contains_key(id as u32));
                return false;
            }
            id = id + 1;
        }
        let mut at: usize = 0;
        let ghost side = side_model(*self);
        while at < snapshot.subgraphs.len()
            invariant
                at <= snapshot.subgraphs@.len(),
                well_formed(*snapshot),
                side == side_model(*self),
                covers_below(side, *snapshot, at as int),
                covers_below(side, *snapshot, snapshot.subgraphs@.len() as int) ==> covers_below(
                    side,
                    *snapshot,
                    at as int,
                ),
            decreases snapshot.subgraphs@.len() - at,
        {
            proof {
                lemma_entry_well_formed(snapshot.subgraphs@);
                lemma_side_bodies(self.subgraphs@);
            }
            let entry: &SubgraphEntry = &snapshot.subgraphs[at];
            let known: bool = match find_sidecar(
                &self.subgraphs,
                entry.node,
                entry.attribute.as_str(),
            ) {
                None => false,
                Some(i) => {
                    proof {
                        assert(decreases_to!(*snapshot => *snapshot.subgraphs@[at as int].snapshot));
                    }
                    self.subgraphs[i].sidecars.covers(&entry.snapshot)
                },
            };
            if !known {
                proof {
                    if covers_below(side, *snapshot, snapshot.subgraphs@.len() as int) {
                        lemma_covers_at(
                            side,
                            *snapshot,
                            snapshot.subgraphs@.len() as int,
                            at as int,
                        );
                    }
                }
                return false;
            }
            at = at + 1;
        }
        true
    }
}

/// Places and names that surround the graph being planned.
pub struct PlanContext<'a> {
    pub ctx_inputs: &'a HashMap<ValueId, usize>,
    pub ctx_input_names: &'a StringHashMap<usize>,
    pub ctx_outputs: &'a HashMap<ValueId, usize>,
    pub enclosing_names: &'a NameSet,
    pub enclosing_inits: &'a InitScope,
    pub root: bool,
    pub keep_names: bool,
}

impl<'a> PlanContext<'a> {
    pub open spec fn wf(&self) -> bool {
        self.enclosing_names.wf() && self.enclosing_inits.wf()
    }

    pub open spec fn env(&self) -> PlanEnv {
        PlanEnv {
            ctx_inputs: self.ctx_inputs@,
            ctx_names: self.ctx_input_names@,
            ctx_outputs: self.ctx_outputs@,
            enclosing: self.enclosing_names@,
            inits: self.enclosing_inits@,
            root: self.root,
            keep_names: self.keep_names,
        }
    }
}

proof fn lemma_scope_fails(
    shot: Shot,
    side: SideModel,
    base: Map<Seq<char>, InitModel>,
    k: int,
    n: int,
)
    requires
        0 <= k <= n,
        scope_below(shot, side, base, k) is Err,
    ensures
        scope_below(shot, side, base, n) == scope_below(shot, side, base, k),
    decreases n,
{
    if k < n {
        lemma_scope_fails(shot, side, base, k, n - 1);
    }
}

/// The initializers visible in a graph.
fn initializer_scope(
    snapshot: &OrtGraphSnapshot,
    sidecars: &GraphSidecars,
    context: &PlanContext,
) -> (scope: Result<InitScope, String>)
    requires
        well_formed(*snapshot),
        context.wf(),
    ensures
        match scope {
            Ok(scope) => scope.wf() && scope_of(
                shot_of(*snapshot),
                side_model(*sidecars),
                context.env(),
            ) == Ok::<Map<Seq<char>, InitModel>, Seq<char>>(scope@),
            Err(failure) => scope_of(shot_of(*snapshot), side_model(*sidecars), context.env())
                == Err::<Map<Seq<char>, InitModel>, Seq<char>>(failure@),
        },
{
    let ghost shot = shot_of(*snapshot);
    let ghost side = side_model(*sidecars);
    let mut scope: InitScope = if context.root {
        InitScope::new()
    } else {
        context.enclosing_inits.copy()
    };
    let ghost base = scope@;
    let mut at: usize = 0;
    while at < snapshot.values.len()
        invariant
            at <= snapshot.values@.len(),
            well_formed(*snapshot),
            shot == shot_of(*snapshot),
            side == side_model(*sidecars),
            base == (if context.root {
                Map::<Seq<char>, InitModel>::empty()
            } else {
                context.enclosing_inits@
            }),
            scope.wf(),
            scope_below(shot, side, base, at as int) == Ok::<
                Map<Seq<char>, InitModel>,
                Seq<char>,
            >(scope@),
        decreases snapshot.values@.len() - at,
    {
        match sidecars.initializers.get(&(at as u32)) {
            None => {},
            Some(init) => match own_init_data(&init.layout, &init.data) {
                Err(failure) => {
                    proof {
                        lemma_scope_fails(shot, side, base, at + 1, shot.values.len() as int);
                    }
                    return Err(failure);
                },
                Ok(owned) => {
                    scope.insert(snapshot.values[at].name.as_str(), owned);
                },
            },
        }
        at = at + 1;
    }
    Ok(scope)
}

/// The formal inputs of a graph.
fn formal_names(snapshot: &OrtGraphSnapshot) -> (names: NameSet)
    requires
        well_formed(*snapshot),
    ensures
        names.wf(),
        forall|name: Seq<char>| #[trigger]
            names@.contains(name) <==> is_formal(shot_of(*snapshot), name),
{
    let ghost shot = shot_of(*snapshot);
    let mut names = NameSet::new();
    let mut at: usize = 0;
    while at < snapshot.graph_input_slots.len()
        invariant
            at <= snapshot.graph_input_slots@.len(),
            well_formed(*snapshot),
            shot == shot_of(*snapshot),
            names.wf(),
            forall|name: Seq<char>| #[trigger]
                names@.contains(name) <==> exists|i: int|
                    0 <= i < at && (#[trigger] shot.inputs[i]) is Some
                        && shot.values[shot.inputs[i]->0 as int].name == name,
        decreases snapshot.graph_input_slots@.len() - at,
    {
        let ghost before = names@;
        match snapshot.graph_input_slots[at] {
            Some(value) => {
                assert(shot.inputs[at as int] == Some(value));
                names.insert(snapshot.values[value as usize].name.as_str());
            },
            None => {},
        }
        proof {
            assert forall|name: Seq<char>| #[trigger] names@.contains(name) <==> exists|i: int|
                0 <= i < at + 1 && (#[trigger] shot.inputs[i]) is Some
                    && shot.values[shot.inputs[i]->0 as int].name == name by {
                assert(before.contains(name) <==> exists|i: int|
                    0 <= i < at && (#[trigger] shot.inputs[i]) is Some
                        && shot.values[shot.inputs[i]->0 as int].name == name);
                if shot.inputs[at as int] is Some
                    && shot.values[shot.inputs[at as int]->0 as int].name == name {
                    assert(names@.contains(name));
                }
            }
        }
        at = at + 1;
    }
    names
}

/// The names that the bodies of a graph's nodes can see.
fn names_in_sight(
    snapshot: &OrtGraphSnapshot,
    enclosing: &NameSet,
) -> (names: NameSet)
    requires
        well_formed(*snapshot),
        enclosing.wf(),
    ensures
        names.wf(),
        names@ == visible_names(shot_of(*snapshot), enclosing@),
{
    let ghost shot = shot_of(*snapshot);
    let mut names: NameSet = enclosing.copy();
    let mut at: usize = 0;
    while at < snapshot.graph_input_slots.len()
        invariant
            at <= snapshot.graph_input_slots@.len(),
            well_formed(*snapshot),
            shot == shot_of(*snapshot),
            names.wf(),
            forall|name: Seq<char>| #[trigger]
                names@.contains(name) <==> enclosing@.contains(name) || exists|i: int|
                    0 <= i < at && (#[trigger] shot.inputs[i]) is Some
                        && shot.values[shot.inputs[i]->0 as int].name == name,
        decreases snapshot.graph_input_slots@.len() - at,
    {
        let ghost before = names@;
        match snapshot.graph_input_slots[at] {
            Some(value) => {
                assert(shot.inputs[at as int] == Some(value));
                names.insert(snapshot.values[value as usize].name.as_str());
            },
            None => {},
        }
        proof {
            assert forall|name: Seq<char>| #[trigger] names@.contains(name) <==> enclosing@.contains(
                name,
            ) || exists|i: int|
                0 <= i < at + 1 && (#[trigger] shot.inputs[i]) is Some
                    && shot.values[shot.inputs[i]->0 as int].name == name by {
                assert(before.contains(name) <==> enclosing@.contains(name) || exists|i: int|
                    0 <= i < at && (#[trigger] shot.inputs[i]) is Some
                        && shot.values[shot.inputs[i]->0 as int].name == name);
                if shot.inputs[at as int] is Some
                    && shot.values[shot.inputs[at as int]->0 as int].name == name {
                    assert(names@.contains(name));
                }
            }
        }
        at = at + 1;
    }
    let mut node: usize = 0;
    while node < snapshot.nodes.len()
        invariant
            node <= snapshot.nodes@.len(),
            well_formed(*snapshot),
            shot == shot_of(*snapshot),
            names.wf(),
            forall|name: Seq<char>| #[trigger]
                names@.contains(name) <==> enclosing@.contains(name) || is_formal(shot, name)
                    || exists|n: int, i: int|
                    0 <= n < node && 0 <= i < shot.nodes[n].output_slots.len() && (
                    #[trigger] shot.nodes[n].output_slots[i]) is Some
                        && shot.values[shot.nodes[n].output_slots[i]->0 as int].name == name,
        decreases snapshot.nodes@.len() - node,
    {
        let ghost opening = names@;
        let ghost slots = shot.nodes[node as int].output_slots;
        let mut out: usize = 0;
        while out < snapshot.nodes[node].output_slots.len()
            invariant
                node < snapshot.nodes@.len(),
                well_formed(*snapshot),
                shot == shot_of(*snapshot),
                slots == shot.nodes[node as int].output_slots,
                slots == snapshot.nodes@[node as int].output_slots@,
                out <= slots.len(),
                names.wf(),
                forall|name: Seq<char>| #[trigger]
                    names@.contains(name) <==> opening.contains(name) || exists|i: int|
                        0 <= i < out && (#[trigger] slots[i]) is Some
                            && shot.values[slots[i]->0 as int].name == name,
            decreases slots.len() - out,
        {
            let ghost before = names@;
            proof {
                let record = shot.nodes[node as int];
                assert(slots_live(record.output_slots, shot.values.len() as int));
            }
            match snapshot.nodes[node].output_slots[out] {
                Some(value) => {
                    assert(slots[out as int] == Some(value));
                    names.insert(snapshot.values[value as usize].name.as_str());
                },
                None => {},
            }
            proof {
                assert forall|name: Seq<char>| #[trigger] names@.contains(name) <==> opening.contains(
                    name,
                ) || exists|i: int|
                    0 <= i < out + 1 && (#[trigger] slots[i]) is Some
                        && shot.values[slots[i]->0 as int].name == name by {
                    assert(before.contains(name) <==> opening.contains(name) || exists|i: int|
                        0 <= i < out && (#[trigger] slots[i]) is Some
                            && shot.values[slots[i]->0 as int].name == name);
                    if slots[out as int] is Some && shot.values[slots[out as int]->0 as int].name
                        == name {
                        assert(names@.contains(name));
                    }
                }
            }
            out = out + 1;
        }
        proof {
            assert forall|name: Seq<char>| #[trigger] names@.contains(name) <==> enclosing@.contains(
                name,
            ) || is_formal(shot, name) || exists|n: int, i: int|
                0 <= n < node + 1 && 0 <= i < shot.nodes[n].output_slots.len() && (
                #[trigger] shot.nodes[n].output_slots[i]) is Some
                    && shot.values[shot.nodes[n].output_slots[i]->0 as int].name == name by {
                if opening.contains(name) && !enclosing@.contains(name) && !is_formal(shot, name) {
                    let (n, i) = choose|n: int, i: int|
                        0 <= n < node && 0 <= i < shot.nodes[n].output_slots.len() && (
                        #[trigger] shot.nodes[n].output_slots[i]) is Some
                            && shot.values[shot.nodes[n].output_slots[i]->0 as int].name == name;
                    assert(shot.nodes[n].output_slots[i] is Some);
                }
                if exists|i: int|
                    0 <= i < slots.len() && (#[trigger] slots[i]) is Some
                        && shot.values[slots[i]->0 as int].name == name {
                    let i = choose|i: int|
                        0 <= i < slots.len() && (#[trigger] slots[i]) is Some
                            && shot.values[slots[i]->0 as int].name == name;
                    assert(shot.nodes[node as int].output_slots[i] is Some);
                }
                if exists|n: int, i: int|
                    0 <= n < node + 1 && 0 <= i < shot.nodes[n].output_slots.len() && (
                    #[trigger] shot.nodes[n].output_slots[i]) is Some
                        && shot.values[shot.nodes[n].output_slots[i]->0 as int].name == name {
                    let (n, i) = choose|n: int, i: int|
                        0 <= n < node + 1 && 0 <= i < shot.nodes[n].output_slots.len() && (
                        #[trigger] shot.nodes[n].output_slots[i]) is Some
                            && shot.values[shot.nodes[n].output_slots[i]->0 as int].name == name;
                    if n == node {
                        assert(slots[i] is Some);
                    } else {
                        assert(opening.contains(name));
                    }
                }
            }
        }
        node = node + 1;
    }
    proof {
        assert(names@ =~= visible_names(shot, enclosing@));
    }
    names
}

/// A reference to a tensor.
pub fn tensor_ref(
    name: String,
    source: Src,
    ctx_index: usize,
    init: Option<InitData>,
) -> (tensor: TensorRef)
    ensures
        tensor@ == tensor_model(
            name@,
            source,
            ctx_index,
            match init {
                Some(init) => Some(init@),
                None => None,
            },
        ),
{
    TensorRef { name, source, ctx_index, constant: false, shape_const: false, init }
}

/// Whether the value is read by the given input slot, as far as the IR knows.
fn is_linked(graph: &onnx_runtime_ir::Graph, value: u32, node: u32, index: u32) -> (known: bool)
    requires
        ir_state(*graph).compact,
        value < ir_state(*graph).values.len(),
    ensures
        known == ir_state(*graph).values[value as int].uses.contains((node, index)),
{
    let slots: Vec<(u32, u32)> = uses(graph, value);
    let mut at: usize = 0;
    while at < slots.len()
        invariant
            at <= slots@.len(),
            forall|slot: (u32, u32)| #[trigger]
                slots@.contains(slot) <==> ir_state(*graph).values[value as int].uses.contains(
                    slot,
                ),
            forall|i: int| 0 <= i < at ==> #[trigger] slots@[i] != (node, index),
        decreases slots@.len() - at,
    {
        if slots[at].0 == node && slots[at].1 == index {
            assert(slots@.contains(slots@[at as int]));
            return true;
        }
        at = at + 1;
    }
    assert(!slots@.contains((node, index)));
    false
}

/// Where the value in an input slot comes from.
fn resolve_input(
    snapshot: &OrtGraphSnapshot,
    context: &PlanContext,
    scope: &InitScope,
    formals: &NameSet,
    node: u32,
    index: usize,
) -> (tensor: Result<TensorRef, String>)
    requires
        well_formed(*snapshot),
        context.wf(),
        scope.wf(),
        formals.wf(),
        forall|name: Seq<char>| #[trigger]
            formals@.contains(name) <==> is_formal(shot_of(*snapshot), name),
        node < snapshot.nodes@.len(),
        index < snapshot.nodes@[node as int].input_slots@.len(),
    ensures
        match tensor {
            Ok(tensor) => resolve(
                shot_of(*snapshot),
                context.env(),
                scope@,
                node as int,
                index as int,
            ) == Ok::<TensorModel, Seq<char>>(tensor@),
            Err(failure) => resolve(
                shot_of(*snapshot),
                context.env(),
                scope@,
                node as int,
                index as int,
            ) == Err::<TensorModel, Seq<char>>(failure@),
        },
{
    let ghost shot = shot_of(*snapshot);
    proof {
        let record = shot.nodes[node as int];
        assert(slots_live(record.input_slots, shot.values.len() as int));
        assert(record.input_slots[index as int]
            == snapshot.nodes@[node as int].input_slots@[index as int]);
    }
    match snapshot.nodes[node as usize].input_slots[index] {
        None => Ok(TensorRef::absent()),
        Some(value) => {
            let name: &str = snapshot.values[value as usize].name.as_str();
            #[verifier::truncate]
            let slot: u32 = index as u32;
            if !is_linked(&snapshot.ir, value, node, slot) {
                let mut failure: String = join3(
                    "optimized graph IR is missing consumer link for ",
                    snapshot.nodes[node as usize].name.as_str(),
                    " input ",
                );
                failure.append(decimal_text(index as u64).as_str());
                return Err(failure);
            }
            if producer(&snapshot.ir, value).is_some() || (!context.root && formals.contains(
                name,
            )) {
                return Ok(tensor_ref(name.to_owned(), Src::Intermediate, 0, None));
            }
            match scope.get(name) {
                Some(init) => {
                    return Ok(
                        tensor_ref(name.to_owned(), Src::Initializer, 0, Some(init.share())),
                    );
                },
                None => {},
            }
            let position: Option<usize> = if context.root {
                match context.ctx_inputs.get(&value) {
                    Some(at) => Some(*at),
                    None => None,
                }
            } else {
                match context.ctx_input_names.get(name) {
                    Some(at) => Some(*at),
                    None => None,
                }
            };
            match position {
                Some(at) => Ok(tensor_ref(name.to_owned(), Src::CtxInput, at, None)),
                None => if context.enclosing_names.contains(name) {
                    Ok(tensor_ref(name.to_owned(), Src::Intermediate, 0, None))
                } else {
                    Err(join2("MLX could not resolve subgraph input ", name))
                },
            }
        },
    }
}

proof fn lemma_resolve_fails(
    shot: Shot,
    env: PlanEnv,
    scope: Map<Seq<char>, InitModel>,
    node: int,
    k: int,
    n: int,
)
    requires
        0 <= k <= n,
        resolve_below(shot, env, scope, node, k) is Err,
    ensures
        resolve_below(shot, env, scope, node, n) == resolve_below(shot, env, scope, node, k),
    decreases n,
{
    if k < n {
        lemma_resolve_fails(shot, env, scope, node, k, n - 1);
    }
}

/// The inputs of a node.
fn resolve_inputs(
    snapshot: &OrtGraphSnapshot,
    context: &PlanContext,
    scope: &InitScope,
    formals: &NameSet,
    node: u32,
) -> (tensors: Result<Vec<TensorRef>, String>)
    requires
        well_formed(*snapshot),
        context.wf(),
        scope.wf(),
        formals.wf(),
        forall|name: Seq<char>| #[trigger]
            formals@.contains(name) <==> is_formal(shot_of(*snapshot), name),
        node < snapshot.nodes@.len(),
    ensures
        match tensors {
            Ok(list) => resolve_below(
                shot_of(*snapshot),
                context.env(),
                scope@,
                node as int,
                snapshot.nodes@[node as int].input_slots@.len() as int,
            ) == Ok::<Seq<TensorModel>, Seq<char>>(tensor_models(list@)),
            Err(failure) => resolve_below(
                shot_of(*snapshot),
                context.env(),
                scope@,
                node as int,
                snapshot.nodes@[node as int].input_slots@.len() as int,
            ) == Err::<Seq<TensorModel>, Seq<char>>(failure@),
        },
{
    let ghost shot = shot_of(*snapshot);
    let ghost env = context.env();
    let mut list: Vec<TensorRef> = Vec::new();
    let n: usize = snapshot.nodes[node as usize].input_slots.len();
    proof {
        assert(tensor_models(list@) =~= Seq::<TensorModel>::empty());
    }
    while list.len() < n
        invariant
            list@.len() <= n,
            n == snapshot.nodes@[node as int].input_slots@.len(),
            well_formed(*snapshot),
            context.wf(),
            scope.wf(),
            formals.wf(),
            forall|name: Seq<char>| #[trigger]
                formals@.contains(name) <==> is_formal(shot_of(*snapshot), name),
            node < snapshot.nodes@.len(),
            shot == shot_of(*snapshot),
            env == context.env(),
            resolve_below(shot, env, scope@, node as int, list@.len() as int) == Ok::<
                Seq<TensorModel>,
                Seq<char>,
            >(tensor_models(list@)),
        decreases n - list@.len(),
    {
        let at: usize = list.len();
        let ghost before = list@;
        match resolve_input(snapshot, context, scope, formals, node, at) {
            Err(failure) => {
                proof {
                    lemma_resolve_fails(shot, env, scope@, node as int, at + 1, n as int);
                }
                return Err(failure);
            },
            Ok(tensor) => {
                list.push(tensor);
                proof {
                    assert(tensor_models(list@) =~= tensor_models(before).push(tensor@));
                }
            },
        }
    }
    Ok(list)
}

/// The outputs of a node.
fn describe_outputs(
    snapshot: &OrtGraphSnapshot,
    context: &PlanContext,
    node: u32,
) -> (outputs: Vec<OutRef>)
    requires
        well_formed(*snapshot),
        node < snapshot.nodes@.len(),
    ensures
        out_models(outputs@) == Seq::new(
            shot_of(*snapshot).nodes[node as int].output_slots.len(),
            |i: int|
                out_of(
                    shot_of(*snapshot),
                    context.env(),
                    shot_of(*snapshot).nodes[node as int].output_slots[i],
                ),
        ),
{
    let ghost shot = shot_of(*snapshot);
    let ghost slots = shot.nodes[node as int].output_slots;
    let mut outputs: Vec<OutRef> = Vec::new();
    while outputs.len() < snapshot.nodes[node as usize].output_slots.len()
        invariant
            well_formed(*snapshot),
            node < snapshot.nodes@.len(),
            shot == shot_of(*snapshot),
            slots == shot.nodes[node as int].output_slots,
            slots == snapshot.nodes@[node as int].output_slots@,
            outputs@.len() <= slots.len(),
            forall|i: int|
                0 <= i < outputs@.len() ==> (#[trigger] outputs@[i])@ == out_of(
                    shot,
                    context.env(),
                    slots[i],
                ),
        decreases slots.len() - outputs@.len(),
    {
        proof {
            let record = shot.nodes[node as int];
            assert(slots_live(record.output_slots, shot.values.len() as int));
        }
        match snapshot.nodes[node as usize].output_slots[outputs.len()] {
            None => {
                outputs.push(
                    OutRef { name: String::new(), external: false, ctx_index: 0, otype: 0 },
                );
            },
            Some(value) => {
                let mut otype: u32 = 0;
                match &snapshot.values[value as usize].tensor {
                    Some(tensor) => {
                        match tensor.dtype {
                            Some(dtype) => {
                                otype = dtype as u32;
                            },
                            None => {},
                        }
                    },
                    None => {},
                }
                let mut external: bool = false;
                let mut ctx_index: usize = 0;
                if context.root {
                    match context.ctx_outputs.get(&value) {
                        Some(at) => {
                            external = true;
                            ctx_index = *at;
                        },
                        None => {},
                    }
                }
                outputs.push(
                    OutRef {
                        name: snapshot.values[value as usize].name.clone(),
                        external,
                        ctx_index,
                        otype,
                    },
                );
            },
        }
    }
    proof {
        assert(out_models(outputs@) =~= Seq::new(
            slots.len(),
            |i: int| out_of(shot, context.env(), slots[i]),
        ));
    }
    outputs
}

/// The names in a list of slots.
fn names_of_slots(snapshot: &OrtGraphSnapshot, slots: &Vec<Option<u32>>) -> (names: Vec<String>)
    requires
        slots_live(slots@, snapshot.values@.len() as int),
    ensures
        name_models(names@) == slot_names(shot_of(*snapshot), slots@),
{
    let ghost shot = shot_of(*snapshot);
    let mut names: Vec<String> = Vec::new();
    while names.len() < slots.len()
        invariant
            names@.len() <= slots@.len(),
            slots_live(slots@, snapshot.values@.len() as int),
            shot == shot_of(*snapshot),
            forall|i: int|
                0 <= i < names@.len() ==> (#[trigger] names@[i])@ == slot_names(shot, slots@)[i],
        decreases slots@.len() - names@.len(),
    {
        match slots[names.len()] {
            Some(value) => {
                names.push(snapshot.values[value as usize].name.clone());
            },
            None => {
                names.push(String::new());
            },
        }
    }
    proof {
        assert(name_models(names@) =~= slot_names(shot, slots@));
    }
    names
}

proof fn lemma_bodies_fail(
    snapshot: OrtGraphSnapshot,
    side: SideModel,
    env: PlanEnv,
    node: u32,
    list: Seq<int>,
    k: int,
)
    requires
        0 <= k <= list.len(),
        plan_bodies(snapshot, side, env, node, list.take(k)) is Err,
    ensures
        plan_bodies(snapshot, side, env, node, list) == plan_bodies(
            snapshot,
            side,
            env,
            node,
            list.take(k),
        ),
    decreases list.len(),
{
    if k < list.len() {
        assert(list.drop_last().take(k) =~= list.take(k));
        lemma_bodies_fail(snapshot, side, env, node, list.drop_last(), k);
    } else {
        assert(list.take(k) =~= list);
    }
}

proof fn lemma_nodes_fail(
    snapshot: OrtGraphSnapshot,
    side: SideModel,
    env: PlanEnv,
    scope: Map<Seq<char>, InitModel>,
    order: Seq<u32>,
    k: int,
)
    requires
        0 <= k <= order.len(),
        plan_nodes(snapshot, side, env, scope, order.take(k)) is Err,
    ensures
        plan_nodes(snapshot, side, env, scope, order) == plan_nodes(
            snapshot,
            side,
            env,
            scope,
            order.take(k),
        ),
    decreases order.len(),
{
    if k < order.len() {
        assert(order.drop_last().take(k) =~= order.take(k));
        lemma_nodes_fail(snapshot, side, env, scope, order.drop_last(), k);
    } else {
        assert(order.take(k) =~= order);
    }
}

/// The bodies of a node, sorted by attribute.
fn build_bodies(
    snapshot: &OrtGraphSnapshot,
    sidecars: &GraphSidecars,
    context: &PlanContext,
    node: u32,
) -> (bodies: Result<Vec<SubgraphDesc>, String>)
    requires
        well_formed(*snapshot),
        covers(side_model(*sidecars), *snapshot),
        context.wf(),
    ensures
        match bodies {
            Ok(list) => plan_bodies(
                *snapshot,
                side_model(*sidecars),
                context.env(),
                node,
                body_list(snapshot.subgraphs@, node),
            ) == Ok::<Seq<BodyModel>, Seq<char>>(body_models(list@)),
            Err(failure) => plan_bodies(
                *snapshot,
                side_model(*sidecars),
                context.env(),
                node,
                body_list(snapshot.subgraphs@, node),
            ) == Err::<Seq<BodyModel>, Seq<char>>(failure@),
        },
    decreases *snapshot, 0int,
{
    let ghost side = side_model(*sidecars);
    let ghost env = context.env();
    let list: Vec<usize> = sorted_bodies(&snapshot.subgraphs, node);
    let ghost all = ints(list@);
    let mut bodies: Vec<SubgraphDesc> = Vec::new();
    proof {
        assert(all.take(0) =~= Seq::<int>::empty());
    }
    while bodies.len() < list.len()
        invariant
            bodies@.len() <= list@.len(),
            well_formed(*snapshot),
            covers(side_model(*sidecars), *snapshot),
            context.wf(),
            side == side_model(*sidecars),
            env == context.env(),
            all == ints(list@),
            all == body_list(snapshot.subgraphs@, node),
            forall|x: int|
                0 <= x < list@.len() ==> #[trigger] list@[x] < snapshot.subgraphs@.len()
                    && snapshot.subgraphs@[list@[x] as int].node == node,
            plan_bodies(*snapshot, side, env, node, all.take(bodies@.len() as int)) == Ok::<
                Seq<BodyModel>,
                Seq<char>,
            >(body_models(bodies@)),
        decreases list@.len() - bodies@.len(),
    {
        let at: usize = bodies.len();
        let index: usize = list[at];
        let ghost before = bodies@;
        proof {
            assert(all.take(at + 1).drop_last() =~= all.take(at as int));
            assert(all.take(at + 1).last() == index);
            lemma_covers_at(
                side,
                *snapshot,
                snapshot.subgraphs@.len() as int,
                index as int,
            );
            lemma_entry_well_formed(snapshot.subgraphs@);
            lemma_side_bodies(sidecars.subgraphs@);
            assert(decreases_to!(*snapshot => *snapshot.subgraphs@[index as int].snapshot));
        }
        let entry: &SubgraphEntry = &snapshot.subgraphs[index];
        match find_sidecar(&sidecars.subgraphs, node, entry.attribute.as_str()) {
            None => {},
            Some(found) => {
                match build_graph(&entry.snapshot, &sidecars.subgraphs[found].sidecars, context) {
                    Err(failure) => {
                        proof {
                            lemma_bodies_fail(*snapshot, side, env, node, all, at + 1);
                        }
                        return Err(failure);
                    },
                    Ok(nodes) => {
                        let input_names: Vec<String> = names_of_slots(
                            &entry.snapshot,
                            &entry.snapshot.graph_input_slots,
                        );
                        let output_names: Vec<String> = names_of_slots(
                            &entry.snapshot,
                            &entry.snapshot.graph_output_slots,
                        );
                        let body = SubgraphDesc {
                            attr_name: entry.attribute.clone(),
                            input_names,
                            output_names,
                            nodes,
                        };
                        bodies.push(body);
                        proof {
                            assert(bodies@.drop_last() =~= before);
                            assert(body_models(bodies@) =~= body_models(before).push(
                                body_model(body),
                            ));
                        }
                    },
                }
            },
        }
    }
    proof {
        assert(all.take(list@.len() as int) =~= all);
    }
    Ok(bodies)
}

/// One node of the plan.
fn build_node(
    snapshot: &OrtGraphSnapshot,
    sidecars: &GraphSidecars,
    context: &PlanContext,
    scope: &InitScope,
    formals: &NameSet,
    inner: &PlanContext,
    id: u32,
) -> (node: Result<NodeDesc, String>)
    requires
        well_formed(*snapshot),
        covers(side_model(*sidecars), *snapshot),
        context.wf(),
        scope.wf(),
        formals.wf(),
        forall|name: Seq<char>| #[trigger]
            formals@.contains(name) <==> is_formal(shot_of(*snapshot), name),
        inner.wf(),
        inner.env() == body_env(shot_of(*snapshot), context.env(), scope@),
        id < snapshot.nodes@.len(),
    ensures
        match node {
            Ok(node) => plan_node(
                *snapshot,
                side_model(*sidecars),
                context.env(),
                scope@,
                id,
            ) == Ok::<NodeModel, Seq<char>>(node_model(node)),
            Err(failure) => plan_node(
                *snapshot,
                side_model(*sidecars),
                context.env(),
                scope@,
                id,
            ) == Err::<NodeModel, Seq<char>>(failure@),
        },
    decreases *snapshot, 1int,
{
    let ghost shot = shot_of(*snapshot);
    let ghost side = side_model(*sidecars);
    let metadata: &NodeMetadata = &snapshot.nodes[id as usize];
    proof {
        assert(side.nodes.contains_key(id));
        assert(shot.nodes[id as int] == metadata@);
    }
    let inputs: Vec<TensorRef> = match resolve_inputs(snapshot, context, scope, formals, id) {
        Err(failure) => {
            return Err(failure);
        },
        Ok(list) => list,
    };
    let outputs: Vec<OutRef> = describe_outputs(snapshot, context, id);
    let subgraphs: Vec<SubgraphDesc> = match build_bodies(snapshot, sidecars, inner, id) {
        Err(failure) => {
            return Err(failure);
        },
        Ok(list) => list,
    };
    match sidecars.nodes.get(&id) {
        None => Err(String::new()),
        Some(facts) => {
            let mut node_id: usize = 0;
            let mut name: String = String::new();
            if context.keep_names {
                node_id = metadata.ort_node_id;
                name = metadata.name.clone();
            }
            let node = NodeDesc {
                op_type: metadata.op_type.clone(),
                domain: metadata.domain.clone(),
                since_version: metadata.since_version,
                shape_safety: facts.shape_safety,
                node_id,
                name,
                attributes: facts.attributes.clone(),
                inputs,
                outputs,
                subgraphs,
            };
            Ok(node)
        },
    }
}

/// The nodes of a graph in the order they run. Every input is resolved to where it comes from;
/// bodies are planned with the names and initializers that they can see.
pub fn build_graph(
    snapshot: &OrtGraphSnapshot,
    sidecars: &GraphSidecars,
    context: &PlanContext,
) -> (nodes: Result<Vec<NodeDesc>, String>)
    requires
        well_formed(*snapshot),
        covers(side_model(*sidecars), *snapshot),
        context.wf(),
    ensures
        match nodes {
            Ok(list) => plan_graph(*snapshot, side_model(*sidecars), context.env()) == Ok::<
                Seq<NodeModel>,
                Seq<char>,
            >(node_models(list@)),
            Err(failure) => plan_graph(*snapshot, side_model(*sidecars), context.env()) == Err::<
                Seq<NodeModel>,
                Seq<char>,
            >(failure@),
        },
    decreases *snapshot, 2int,
{
    let ghost shot = shot_of(*snapshot);
    let ghost side = side_model(*sidecars);
    let ghost env = context.env();
    let scope: InitScope = match initializer_scope(snapshot, sidecars, context) {
        Err(failure) => {
            return Err(failure);
        },
        Ok(scope) => scope,
    };
    let formals: NameSet = formal_names(snapshot);
    let visible: NameSet = names_in_sight(snapshot, context.enclosing_names);
    let no_outputs: HashMap<ValueId, usize> = HashMap::new();
    let inner = PlanContext {
        ctx_inputs: context.ctx_inputs,
        ctx_input_names: context.ctx_input_names,
        ctx_outputs: &no_outputs,
        enclosing_names: &visible,
        enclosing_inits: &scope,
        root: false,
        keep_names: context.keep_names,
    };
    proof {
        assert(inner.env() =~= body_env(shot, env, scope@));
    }
    let order: Vec<u32> = match topological_order(&snapshot.ir) {
        Err(failure) => {
            let text: String = join2(
                "optimized graph IR has no topological order: ",
                failure.as_str(),
            );
            proof {
                reveal_strlit("optimized graph IR has no topological order: ");
                reveal_strlit("cycle detected in graph");
                reveal_strlit(
                    "optimized graph IR has no topological order: cycle detected in graph",
                );
                assert(text@
                    =~= "optimized graph IR has no topological order: cycle detected in graph"@);
                assert(!has_order(shot.ir));
            }
            return Err(text);
        },
        Ok(order) => order,
    };
    proof {
        lemma_order_unique(shot.ir, order@);
    }
    let mut nodes: Vec<NodeDesc> = Vec::new();
    proof {
        assert(order@.take(0) =~= Seq::<u32>::empty());
    }
    while nodes.len() < order.len()
        invariant
            nodes@.len() <= order@.len(),
            well_formed(*snapshot),
            covers(side_model(*sidecars), *snapshot),
            context.wf(),
            scope.wf(),
            formals.wf(),
            forall|name: Seq<char>| #[trigger]
                formals@.contains(name) <==> is_formal(shot_of(*snapshot), name),
            inner.wf(),
            inner.env() == body_env(shot_of(*snapshot), context.env(), scope@),
            shot == shot_of(*snapshot),
            side == side_model(*sidecars),
            env == context.env(),
            ir_order(shot.ir, order@),
            has_order(shot.ir),
            order_of(shot.ir) == order@,
            scope_of(shot, side, env) == Ok::<Map<Seq<char>, InitModel>, Seq<char>>(scope@),
            plan_nodes(*snapshot, side, env, scope@, order@.take(nodes@.len() as int)) == Ok::<
                Seq<NodeModel>,
                Seq<char>,
            >(node_models(nodes@)),
        decreases order@.len() - nodes@.len(),
    {
        let at: usize = nodes.len();
        let id: u32 = order[at];
        let ghost before = nodes@;
        proof {
            assert(order@.take(at + 1).drop_last() =~= order@.take(at as int));
            assert(order@.take(at + 1).last() == id);
            assert(id < shot.nodes.len());
        }
        match build_node(snapshot, sidecars, context, &scope, &formals, &inner, id) {
            Err(failure) => {
                proof {
                    lemma_nodes_fail(*snapshot, side, env, scope@, order@, at + 1);
                }
                return Err(failure);
            },
            Ok(node) => {
                nodes.push(node);
                proof {
                    assert(nodes@.drop_last() =~= before);
                }
            },
        }
    }
    proof {
        assert(order@.take(order@.len() as int) =~= order@);
    }
    let constants: NameSet = scope.names();
    mark_shape_constants(&mut nodes, &constants);
    Ok(nodes)
}

} // verus!
