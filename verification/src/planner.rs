//! From what was read of a fused subgraph to its execution plan.

use std::collections::HashMap;

use vstd::hash_map::StringHashMap;
use vstd::prelude::*;

use crate::engine::{
    body_model, body_models, lemma_body_models, lemma_node_models, node_model, node_models,
    BodyModel, NodeDesc, NodeModel,
};
use crate::init_scope::InitScope;
use crate::ir::ValueId;
use crate::names::NameSet;
use crate::ort_graph::captured;
use crate::plan::{has_double_output, Plan};
use crate::plan_builder::{build_graph, covers, plan_graph, PlanContext, PlanEnv};
use crate::plan_contents::law_plan_from_contents;
use crate::raw_graph::{fits, RawGraph};
use crate::sidecars::{side_captured, side_model, GraphSidecars, RawSidecars, SideModel};
use crate::snapshot::{shot_of, value_named, well_formed, OrtGraphSnapshot, Shot, ValueShot};
use crate::snapshot_laws::mirrors;
use crate::text::{join2, quoted, quoted_text, same_text};

verus! {

broadcast use vstd::std_specs::hash::group_hash_axioms;

/// The input or output slots of a fused node as they are read over the ABI. A null slot is `None`.
pub struct RawBoundary {
    pub slots: Result<Vec<Option<Result<String, String>>>, String>,
}

/// The positions of the values in the first `k` slots. Slots that are null or unnamed keep their
/// position but stand for no value.
pub open spec fn positions_below(
    values: Seq<ValueShot>,
    slots: Seq<Option<Result<String, String>>>,
    k: int,
) -> Result<Map<u32, usize>, Seq<char>>
    decreases k,
{
    if k <= 0 {
        Ok(Map::empty())
    } else {
        match positions_below(values, slots, k - 1) {
            Err(failure) => Err(failure),
            Ok(before) => match slots[k - 1] {
                None => Ok(before),
                Some(Err(failure)) => Err(failure@),
                Some(Ok(name)) => if name@.len() == 0 {
                    Ok(before)
                } else {
                    match value_named(values, name@) {
                        None => Err(
                            "snapshot is missing fused-node boundary "@ + quoted_text(name@),
                        ),
                        Some(value) => Ok(before.insert(value, (k - 1) as usize)),
                    }
                },
            },
        }
    }
}

/// The positions of the values on a boundary of the fused node.
pub open spec fn boundary_positions(
    values: Seq<ValueShot>,
    boundary: RawBoundary,
) -> Result<Map<u32, usize>, Seq<char>> {
    match boundary.slots {
        Err(failure) => Err(failure@),
        Ok(slots) => positions_below(values, slots@, slots@.len() as int),
    }
}

proof fn lemma_positions_fail(
    values: Seq<ValueShot>,
    slots: Seq<Option<Result<String, String>>>,
    k: int,
    n: int,
)
    requires
        0 <= k <= n,
        positions_below(values, slots, k) is Err,
    ensures
        positions_below(values, slots, n) == positions_below(values, slots, k),
    decreases n,
{
    if k < n {
        lemma_positions_fail(values, slots, k, n - 1);
    }
}

/// Finds a value by name.
pub(crate) fn find_value(snapshot: &OrtGraphSnapshot, name: &str) -> (value: Option<u32>)
    requires
        well_formed(*snapshot),
    ensures
        value == value_named(shot_of(*snapshot).values, name@),
{
    let ghost values = shot_of(*snapshot).values;
    match snapshot.value_by_name.get(name) {
        Some(id) => {
            proof {
                assert(values[*id as int].name == name@);
                let i = choose|i: int| 0 <= i < values.len() && (#[trigger] values[i]).name == name@;
                assert(values[i].name == name@);
            }
            Some(*id)
        },
        None => {
            proof {
                if exists|i: int| 0 <= i < values.len() && (#[trigger] values[i]).name == name@ {
                    let i = choose|i: int|
                        0 <= i < values.len() && (#[trigger] values[i]).name == name@;
                    assert(snapshot.value_by_name@.contains_key(values[i].name));
                }
            }
            None
        },
    }
}

/// The positions of the values on a boundary of the fused node.
pub fn fused_boundary_indices(
    boundary: &RawBoundary,
    snapshot: &OrtGraphSnapshot,
) -> (indices: Result<HashMap<ValueId, usize>, String>)
    requires
        well_formed(*snapshot),
    ensures
        match indices {
            Ok(indices) => boundary_positions(shot_of(*snapshot).values, *boundary) == Ok::<
                Map<u32, usize>,
                Seq<char>,
            >(indices@),
            Err(failure) => boundary_positions(shot_of(*snapshot).values, *boundary) == Err::<
                Map<u32, usize>,
                Seq<char>,
            >(failure@),
        },
{
    let ghost values = shot_of(*snapshot).values;
    let slots: &Vec<Option<Result<String, String>>> = match &boundary.slots {
        Err(failure) => {
            return Err(failure.clone());
        },
        Ok(slots) => slots,
    };
    let mut indices: HashMap<ValueId, usize> = HashMap::new();
    let mut at: usize = 0;
    while at < slots.len()
        invariant
            at <= slots@.len(),
            well_formed(*snapshot),
            values == shot_of(*snapshot).values,
            boundary.slots == Ok::<Vec<Option<Result<String, String>>>, String>(*slots),
            positions_below(values, slots@, at as int) == Ok::<Map<u32, usize>, Seq<char>>(
                indices@,
            ),
        decreases slots@.len() - at,
    {
        match &slots[at] {
            None => {},
            Some(Err(failure)) => {
                proof {
                    lemma_positions_fail(values, slots@, at + 1, slots@.len() as int);
                }
                return Err(failure.clone());
            },
            Some(Ok(name)) => {
                if !name.as_str().is_empty() {
                    match find_value(snapshot, name.as_str()) {
                        None => {
                            proof {
                                lemma_positions_fail(values, slots@, at + 1, slots@.len() as int);
                            }
                            return Err(
                                join2(
                                    "snapshot is missing fused-node boundary ",
                                    quoted(name.as_str()).as_str(),
                                ),
                            );
                        },
                        Some(value) => {
                            indices.insert(value, at);
                        },
                    }
                }
            },
        }
        at = at + 1;
    }
    Ok(indices)
}

/// Positions by name.
pub open spec fn positions_by_name(
    values: Seq<ValueShot>,
    indices: Map<u32, usize>,
) -> Map<Seq<char>, usize> {
    Map::new(
        |name: Seq<char>|
            value_named(values, name) matches Some(value) && indices.contains_key(value),
        |name: Seq<char>| indices[value_named(values, name)->0],
    )
}

/// Positions by name.
pub fn boundary_names(
    indices: &HashMap<ValueId, usize>,
    snapshot: &OrtGraphSnapshot,
) -> (names: StringHashMap<usize>)
    requires
        well_formed(*snapshot),
    ensures
        names@ == positions_by_name(shot_of(*snapshot).values, indices@),
{
    let ghost values = shot_of(*snapshot).values;
    let mut names: StringHashMap<usize> = StringHashMap::new();
    let mut at: usize = 0;
    while at < snapshot.values.len()
        invariant
            at <= snapshot.values@.len(),
            well_formed(*snapshot),
            values == shot_of(*snapshot).values,
            forall|name: Seq<char>| #[trigger]
                names@.contains_key(name) <==> (value_named(values, name) matches Some(value)
                    && value < at && indices@.contains_key(value)),
            forall|name: Seq<char>| #[trigger]
                names@.contains_key(name) ==> names@[name] == indices@[value_named(
                    values,
                    name,
                )->0],
        decreases snapshot.values@.len() - at,
    {
        let ghost before = names@;
        let ghost own = values[at as int].name;
        proof {
            let i = choose|i: int| 0 <= i < values.len() && (#[trigger] values[i]).name == own;
            assert(values[at as int].name == own);
            assert(values[i].name == own);
            assert(value_named(values, own) == Some(at as u32));
        }
        match indices.get(&(at as u32)) {
            Some(position) => {
                names.insert(snapshot.values[at].name.clone(), *position);
            },
            None => {},
        }
        proof {
            assert forall|name: Seq<char>| #[trigger] names@.contains_key(name) <==> (value_named(
                values,
                name,
            ) matches Some(value) && value < at + 1 && indices@.contains_key(value)) by {
                assert(before.contains_key(name) <==> (value_named(values, name) matches Some(value)
                    && value < at && indices@.contains_key(value)));
                if value_named(values, name) == Some(at as u32) {
                    let i = choose|i: int|
                        0 <= i < values.len() && (#[trigger] values[i]).name == name;
                    assert(values[i].name == name);
                    assert(snapshot.value_by_name@[values[i].name] == i);
                }
            }
            assert forall|name: Seq<char>| #[trigger] names@.contains_key(name) implies names@[name]
                == indices@[value_named(values, name)->0] by {
                if name != own {
                    assert(before.contains_key(name));
                }
            }
        }
        at = at + 1;
    }
    proof {
        assert forall|name: Seq<char>| #[trigger]
            names@.contains_key(name) <==> positions_by_name(values, indices@).contains_key(
                name,
            ) by {
            if value_named(values, name) is Some {
                let i = choose|i: int| 0 <= i < values.len() && (#[trigger] values[i]).name == name;
                assert(values[i].name == name);
                assert(snapshot.value_by_name@[values[i].name] == i);
            }
        }
        assert(names@ =~= positions_by_name(values, indices@));
    }
    names
}

/// Operators that decide which compiled paths a plan may take.
#[derive(Clone, Copy, Debug, PartialEq, Eq, Structural)]
pub enum OpKind {
    ControlFlow,
    CompileBarrier,
}

impl OpKind {
    pub open spec fn holds(self, op_type: Seq<char>) -> bool {
        match self {
            OpKind::ControlFlow => op_type == "If"@ || op_type == "Loop"@ || op_type == "Scan"@
                || op_type == "SequenceMap"@,
            OpKind::CompileBarrier => op_type == "PackedMultiHeadAttention"@,
        }
    }

    fn test(self, op_type: &str) -> (holds: bool)
        ensures
            holds == self.holds(op_type@),
    {
        match self {
            OpKind::ControlFlow => same_text(op_type, "If") || same_text(op_type, "Loop")
                || same_text(op_type, "Scan") || same_text(op_type, "SequenceMap"),
            OpKind::CompileBarrier => same_text(op_type, "PackedMultiHeadAttention"),
        }
    }
}

/// An operator of that kind occurs among the nodes or in one of their bodies.
pub open spec fn kind_occurs(kind: OpKind, nodes: Seq<NodeModel>) -> bool
    decreases nodes, 1int,
{
    nodes.len() > 0 && (kind_occurs(kind, nodes.drop_last()) || kind.holds(nodes.last().op_type)
        || kind_in_bodies(kind, nodes.last().subgraphs))
}

/// An operator of that kind occurs in one of the bodies.
pub open spec fn kind_in_bodies(kind: OpKind, bodies: Seq<BodyModel>) -> bool
    decreases bodies, 0int,
{
    bodies.len() > 0 && (kind_in_bodies(kind, bodies.drop_last()) || kind_occurs(
        kind,
        bodies.last().nodes,
    ))
}

proof fn lemma_kind_prefix(kind: OpKind, nodes: Seq<NodeModel>, k: int)
    requires
        0 <= k <= nodes.len(),
        kind_occurs(kind, nodes.take(k)),
    ensures
        kind_occurs(kind, nodes),
    decreases nodes.len(),
{
    if k < nodes.len() {
        assert(nodes.drop_last().take(k) =~= nodes.take(k));
        lemma_kind_prefix(kind, nodes.drop_last(), k);
    } else {
        assert(nodes.take(k) =~= nodes);
    }
}

proof fn lemma_kind_bodies_prefix(kind: OpKind, bodies: Seq<BodyModel>, k: int)
    requires
        0 <= k <= bodies.len(),
        kind_in_bodies(kind, bodies.take(k)),
    ensures
        kind_in_bodies(kind, bodies),
    decreases bodies.len(),
{
    if k < bodies.len() {
        assert(bodies.drop_last().take(k) =~= bodies.take(k));
        lemma_kind_bodies_prefix(kind, bodies.drop_last(), k);
    } else {
        assert(bodies.take(k) =~= bodies);
    }
}

/// Whether an operator of that kind occurs among the nodes or in one of their bodies.
fn find_kind(kind: OpKind, nodes: &Vec<NodeDesc>) -> (found: bool)
    ensures
        found == kind_occurs(kind, node_models(nodes@)),
    decreases *nodes,
{
    let ghost models = node_models(nodes@);
    proof {
        lemma_node_models(nodes@);
        assert(models.take(0) =~= Seq::<NodeModel>::empty());
    }
    let mut at: usize = 0;
    while at < nodes.len()
        invariant
            at <= nodes@.len(),
            models == node_models(nodes@),
            models.len() == nodes@.len(),
            forall|i: int| 0 <= i < nodes@.len() ==> #[trigger] models[i] == node_model(nodes@[i]),
            !kind_occurs(kind, models.take(at as int)),
        decreases nodes@.len() - at,
    {
        proof {
            assert(models.take(at + 1).drop_last() =~= models.take(at as int));
            assert(models.take(at + 1).last() == node_model(nodes@[at as int]));
        }
        if kind.test(nodes[at].op_type.as_str()) {
            proof {
                lemma_kind_prefix(kind, models, at + 1);
            }
            return true;
        }
        let ghost bodies = nodes@[at as int].subgraphs@;
        let ghost bodies_models = body_models(bodies);
        proof {
            lemma_body_models(bodies);
            assert(bodies_models.take(0) =~= Seq::<BodyModel>::empty());
        }
        let mut inner: usize = 0;
        while inner < nodes[at].subgraphs.len()
            invariant
                at < nodes@.len(),
                bodies == nodes@[at as int].subgraphs@,
                inner <= bodies.len(),
                models == node_models(nodes@),
                models.len() == nodes@.len(),
                models.take(at + 1).last() == node_model(nodes@[at as int]),
                bodies_models == body_models(bodies),
                bodies_models.len() == bodies.len(),
                forall|i: int|
                    0 <= i < bodies.len() ==> #[trigger] bodies_models[i] == body_model(bodies[i]),
                !kind_in_bodies(kind, bodies_models.take(inner as int)),
            decreases bodies.len() - inner,
        {
            proof {
                assert(bodies_models.take(inner + 1).drop_last() =~= bodies_models.take(
                    inner as int,
                ));
                assert(bodies_models.take(inner + 1).last() == body_model(bodies[inner as int]));
                assert(decreases_to!(*nodes => nodes@[at as int].subgraphs@[inner as int].nodes));
            }
            if find_kind(kind, &nodes[at].subgraphs[inner].nodes) {
                proof {
                    lemma_kind_bodies_prefix(kind, bodies_models, inner + 1);
                    lemma_kind_prefix(kind, models, at + 1);
                }
                return true;
            }
            inner = inner + 1;
        }
        proof {
            assert(bodies_models.take(bodies.len() as int) =~= bodies_models);
        }
        at = at + 1;
    }
    proof {
        assert(models.take(nodes@.len() as int) =~= models);
    }
    false
}

/// Whether a node, or a node of a body, is a control-flow operator.
pub fn any_control_flow(nodes: &Vec<NodeDesc>) -> (found: bool)
    ensures
        found == kind_occurs(OpKind::ControlFlow, node_models(nodes@)),
{
    find_kind(OpKind::ControlFlow, nodes)
}

/// Whether a node, or a node of a body, keeps a plan from being compiled.
pub fn has_compile_barrier(nodes: &Vec<NodeDesc>) -> (found: bool)
    ensures
        found == kind_occurs(OpKind::CompileBarrier, node_models(nodes@)),
{
    find_kind(OpKind::CompileBarrier, nodes)
}

/// Some node of the graph works on 64-bit floating-point tensors.
pub open spec fn works_in_double(side: SideModel, count: nat) -> bool {
    exists|id: u32| id < count && (#[trigger] side.nodes[id]).uses_float64
}

/// The nodes of a plan and what they say of the paths that it may take.
pub struct PlanDraft {
    pub nodes: Vec<NodeDesc>,
    pub has_control_flow: bool,
    pub has_compile_barrier: bool,
    pub uses_float64: bool,
}

#[verifier::ext_equal]
pub ghost struct DraftModel {
    pub nodes: Seq<NodeModel>,
    pub has_control_flow: bool,
    pub has_compile_barrier: bool,
    pub uses_float64: bool,
}

impl View for PlanDraft {
    type V = DraftModel;

    open spec fn view(&self) -> DraftModel {
        DraftModel {
            nodes: node_models(self.nodes@),
            has_control_flow: self.has_control_flow,
            has_compile_barrier: self.has_compile_barrier,
            uses_float64: self.uses_float64,
        }
    }
}

/// What surrounds the graph of a fused node.
pub open spec fn root_env(
    values: Seq<ValueShot>,
    inputs: Map<u32, usize>,
    outputs: Map<u32, usize>,
    keep_names: bool,
) -> PlanEnv {
    PlanEnv {
        ctx_inputs: inputs,
        ctx_names: positions_by_name(values, inputs),
        ctx_outputs: outputs,
        enclosing: Set::empty(),
        inits: Map::empty(),
        root: true,
        keep_names,
    }
}

/// The draft of a graph: its boundaries are resolved first, then its nodes.
pub open spec fn drafted(
    snapshot: OrtGraphSnapshot,
    side: SideModel,
    inputs: RawBoundary,
    outputs: RawBoundary,
    keep_names: bool,
) -> Result<DraftModel, Seq<char>> {
    let values = shot_of(snapshot).values;
    match boundary_positions(values, inputs) {
        Err(failure) => Err(failure),
        Ok(ctx_inputs) => match boundary_positions(values, outputs) {
            Err(failure) => Err(failure),
            Ok(ctx_outputs) => match plan_graph(
                snapshot,
                side,
                root_env(values, ctx_inputs, ctx_outputs, keep_names),
            ) {
                Err(failure) => Err(failure),
                Ok(nodes) => Ok(
                    DraftModel {
                        nodes,
                        has_control_flow: kind_occurs(OpKind::ControlFlow, nodes),
                        has_compile_barrier: kind_occurs(OpKind::CompileBarrier, nodes),
                        uses_float64: works_in_double(side, snapshot.nodes@.len()),
                    },
                ),
            },
        },
    }
}

/// Whether some node works on 64-bit floating-point tensors.
fn find_double(snapshot: &OrtGraphSnapshot, sidecars: &GraphSidecars) -> (found: bool)
    requires
        well_formed(*snapshot),
        covers(side_model(*sidecars), *snapshot),
    ensures
        found == works_in_double(side_model(*sidecars), snapshot.nodes@.len()),
{
    let ghost side = side_model(*sidecars);
    let mut at: usize = 0;
    while at < snapshot.nodes.len()
        invariant
            at <= snapshot.nodes@.len(),
            well_formed(*snapshot),
            side == side_model(*sidecars),
            covers(side, *snapshot),
            forall|id: u32| id < at ==> !(#[trigger] side.nodes[id]).uses_float64,
        decreases snapshot.nodes@.len() - at,
    {
        proof {
            assert(side.nodes.contains_key(at as u32));
        }
        match sidecars.nodes.get(&(at as u32)) {
            None => {},
            Some(facts) => {
                if facts.uses_float64 {
                    assert(side.nodes[at as u32].uses_float64);
                    return true;
                }
            },
        }
        at = at + 1;
    }
    false
}

/// Drafts the plan of a graph.
pub fn draft_plan(
    snapshot: &OrtGraphSnapshot,
    sidecars: &GraphSidecars,
    inputs: &RawBoundary,
    outputs: &RawBoundary,
    keep_names: bool,
) -> (draft: Result<PlanDraft, String>)
    requires
        well_formed(*snapshot),
        covers(side_model(*sidecars), *snapshot),
    ensures
        match draft {
            Ok(draft) => drafted(*snapshot, side_model(*sidecars), *inputs, *outputs, keep_names)
                == Ok::<DraftModel, Seq<char>>(draft@),
            Err(failure) => drafted(
                *snapshot,
                side_model(*sidecars),
                *inputs,
                *outputs,
                keep_names,
            ) == Err::<DraftModel, Seq<char>>(failure@),
        },
{
    let ctx_inputs: HashMap<ValueId, usize> = match fused_boundary_indices(inputs, snapshot) {
        Err(failure) => {
            return Err(failure);
        },
        Ok(indices) => indices,
    };
    let ctx_outputs: HashMap<ValueId, usize> = match fused_boundary_indices(outputs, snapshot) {
        Err(failure) => {
            return Err(failure);
        },
        Ok(indices) => indices,
    };
    let ctx_input_names: StringHashMap<usize> = boundary_names(&ctx_inputs, snapshot);
    let no_names = NameSet::new();
    let no_inits = InitScope::new();
    let context = PlanContext {
        ctx_inputs: &ctx_inputs,
        ctx_input_names: &ctx_input_names,
        ctx_outputs: &ctx_outputs,
        enclosing_names: &no_names,
        enclosing_inits: &no_inits,
        root: true,
        keep_names,
    };
    proof {
        assert(context.env() =~= root_env(
            shot_of(*snapshot).values,
            ctx_inputs@,
            ctx_outputs@,
            keep_names,
        ));
    }
    match build_graph(snapshot, sidecars, &context) {
        Err(failure) => Err(failure),
        Ok(nodes) => {
            let has_control_flow: bool = any_control_flow(&nodes);
            let barrier: bool = has_compile_barrier(&nodes);
            let uses_float64: bool = find_double(snapshot, sidecars);
            Ok(
                PlanDraft {
                    nodes,
                    has_control_flow,
                    has_compile_barrier: barrier,
                    uses_float64,
                },
            )
        },
    }
}

/// `snapshot` is one of the graph that was read.
pub open spec fn is_snapshot_of(raw: RawGraph, snapshot: OrtGraphSnapshot) -> bool {
    &&& well_formed(snapshot)
    &&& mirrors(shot_of(snapshot))
    &&& captured(raw) == Ok::<Shot, Seq<char>>(shot_of(snapshot))
}

/// A snapshot of the graph that was read. All of them hold the same, and give the same plan.
pub open spec fn snapshot_read(raw: RawGraph) -> OrtGraphSnapshot {
    choose|snapshot: OrtGraphSnapshot| is_snapshot_of(raw, snapshot)
}

/// The draft of a graph with what was read beside it, unless that leaves out a node or a body.
pub open spec fn draft_of(
    snapshot: OrtGraphSnapshot,
    raw_side: RawSidecars,
    inputs: RawBoundary,
    outputs: RawBoundary,
    keep_names: bool,
) -> Result<Option<DraftModel>, Seq<char>> {
    match side_captured(raw_side, snapshot) {
        Err(failure) => Err(failure),
        Ok(side) => if !covers(side, snapshot) {
            Ok(None)
        } else {
            match drafted(snapshot, side, inputs, outputs, keep_names) {
                Err(failure) => Err(failure),
                Ok(draft) => Ok(Some(draft)),
            }
        },
    }
}

/// The draft of a fused subgraph that was read.
pub open spec fn plan_drafted(
    raw: Option<RawGraph>,
    raw_side: RawSidecars,
    inputs: RawBoundary,
    outputs: RawBoundary,
    keep_names: bool,
) -> Result<Option<DraftModel>, Seq<char>> {
    match raw {
        None => Err("ORT supplied a null graph"@),
        Some(graph) => match captured(graph) {
            Err(failure) => Err(failure),
            Ok(_) => draft_of(snapshot_read(graph), raw_side, inputs, outputs, keep_names),
        },
    }
}

pub open spec fn draft_view(draft: Result<Option<PlanDraft>, String>) -> Result<
    Option<DraftModel>,
    Seq<char>,
> {
    match draft {
        Err(failure) => Err(failure@),
        Ok(None) => Ok(None),
        Ok(Some(draft)) => Ok(Some(draft@)),
    }
}

/// Reads a fused subgraph and drafts its plan: snapshot first, then sidecars, boundaries and nodes.
/// There is no draft where the sidecars leave out a node or a body of the graph.
pub fn build_plan(
    raw: Option<&RawGraph>,
    raw_side: &RawSidecars,
    inputs: &RawBoundary,
    outputs: &RawBoundary,
    keep_names: bool,
) -> (draft: Result<Option<PlanDraft>, String>)
    requires
        raw matches Some(graph) ==> fits(*graph),
    ensures
        draft_view(draft) == plan_drafted(
            match raw {
                Some(graph) => Some(*graph),
                None => None,
            },
            *raw_side,
            *inputs,
            *outputs,
            keep_names,
        ),
{
    let snapshot: OrtGraphSnapshot = match OrtGraphSnapshot::from_ort(raw) {
        Err(failure) => {
            return Err(failure);
        },
        Ok(snapshot) => snapshot,
    };
    proof {
        let chosen = snapshot_read(*raw->0);
        assert(is_snapshot_of(*raw->0, snapshot));
        assert(is_snapshot_of(*raw->0, chosen));
        let side = side_captured(*raw_side, snapshot)->Ok_0;
        law_plan_from_contents(snapshot, chosen, *raw_side, side, *inputs, *outputs, keep_names);
    }
    let sidecars: GraphSidecars = match GraphSidecars::capture(raw_side, &snapshot) {
        Err(failure) => {
            return Err(failure);
        },
        Ok(sidecars) => sidecars,
    };
    if !sidecars.covers(&snapshot) {
        return Ok(None);
    }
    match draft_plan(&snapshot, &sidecars, inputs, outputs, keep_names) {
        Err(failure) => Err(failure),
        Ok(draft) => Ok(Some(draft)),
    }
}

/// What the compiler of paths answers for the nodes of a draft.
pub struct PlanGates {
    pub dedicated_decode_stream: bool,
    pub native_attention_decode: bool,
    pub decode: bool,
    pub prefill: bool,
    pub general: bool,
}

impl PlanDraft {
    /// Whether the decode and prefill paths are ruled out before the compiler is asked.
    pub fn fixed_paths_blocked(&self) -> (blocked: bool)
        ensures
            blocked == (self.has_control_flow || self.has_compile_barrier),
    {
        self.has_control_flow || self.has_compile_barrier
    }

    /// Whether the general path is ruled out before the compiler is asked.
    pub fn general_path_blocked(&self) -> (blocked: bool)
        ensures
            blocked == self.has_compile_barrier,
    {
        self.has_compile_barrier
    }

    /// The plan for the compiler's answers. A plan that works on 64-bit floating-point tensors runs
    /// on the CPU, node by node.
    pub fn into_plan(self, gates: &PlanGates) -> (plan: Plan)
        ensures
            plan.nodes == self.nodes,
            plan.requires_cpu_stream == (has_double_output(self.nodes@) || self.uses_float64),
            plan.dedicated_decode_stream == (gates.dedicated_decode_stream
                && !plan.requires_cpu_stream),
            plan.native_attention_decode == gates.native_attention_decode,
            plan.compiled.enabled == (gates.decode && !plan.requires_cpu_stream),
            plan.prefill.enabled == (gates.prefill && !plan.requires_cpu_stream),
            plan.general.enabled == (gates.general && !plan.requires_cpu_stream),
            plan.general.control_flow_specialization_enabled == self.has_control_flow,
            !plan.compiled.control_flow_specialization_enabled,
            !plan.prefill.control_flow_specialization_enabled,
            !plan.compiled.valid && !plan.prefill.valid && !plan.general.valid,
            plan.compiled.stable_generation_key is None,
            plan.prefill.stable_generation_key is None,
            plan.general.stable_generation_key is None,
            plan.compiled.stable_cross_inputs@.len() == 0,
            plan.prefill.stable_cross_inputs@.len() == 0,
            plan.general.stable_cross_inputs@.len() == 0,
            plan.compiled.control_flow_key is None,
            plan.prefill.control_flow_key is None,
            plan.general.control_flow_key is None,
            plan.compiled.dyn_inputs@.len() == 0,
            plan.prefill.dyn_inputs@.len() == 0,
            plan.general.dyn_inputs@.len() == 0,
    {
        let mut plan: Plan = Plan::new(self.nodes);
        if self.uses_float64 {
            plan.requires_cpu_stream = true;
        }
        plan.dedicated_decode_stream = gates.dedicated_decode_stream;
        plan.native_attention_decode = gates.native_attention_decode;
        plan.compiled.enabled = gates.decode;
        plan.prefill.enabled = gates.prefill;
        plan.general.enabled = gates.general;
        plan.general.control_flow_specialization_enabled = self.has_control_flow;
        if plan.requires_cpu_stream {
            plan.dedicated_decode_stream = false;
            plan.compiled.enabled = false;
            plan.prefill.enabled = false;
            plan.general.enabled = false;
        }
        plan
    }
}

} // verus!
