//! What the models of records tell of the records themselves, field by field.

use vstd::prelude::*;

use crate::declined::{lemma_declined_map, DeclinedTable};
use crate::engine::{
    body_model, lemma_body_models, lemma_node_models, node_model, InitData, NodeDesc, OutRef,
    SubgraphDesc, TensorRef,
};
use crate::init_data::data_view;
use crate::ops::scan_machine::{action_model, ActionModel, ScanAction};
use crate::planner::PlanDraft;
use crate::registry::OpEntry;
use crate::sidecars::{side_bodies, side_model, GraphSidecars, SidecarEntry};
use crate::snapshot::{
    shot_of, well_formed, DimShot, DimensionMetadata, NodeMetadata, OrtGraphSnapshot,
    ValueMetadata,
};
use crate::tables::{calls_sum, lemma_time_map, micros_sum, TimeEntry, TimeTable};
use crate::tracer::{CounterSample, CounterValue, ValueModel};

verus! {

/// The model of a node record.
pub proof fn law_node_record_shown(node: NodeMetadata)
    ensures
        node@.ort_node_id == node.ort_node_id,
        node@.name == node.name@,
        node@.domain == node.domain@,
        node@.op_type == node.op_type@,
        node@.since_version == node.since_version,
        node@.input_slots == node.input_slots@,
        node@.output_slots == node.output_slots@,
{
}

/// The model of a value record: a missing tensor type, element type or shape stays missing, a size
/// stays a size and a symbol a symbol.
pub proof fn law_value_record_shown(value: ValueMetadata)
    ensures
        value@.name == value.name@,
        value@.kind == value.type_kind,
        value@.tensor is Some <==> value.tensor is Some,
        value.tensor matches Some(tensor) ==> {
            let shown = value@.tensor->0;
            &&& shown.dtype == tensor.dtype
            &&& shown.shape is Some <==> tensor.shape is Some
            &&& tensor.shape matches Some(dims) ==> {
                &&& shown.shape->0.len() == dims@.len()
                &&& forall|i: int|
                    0 <= i < dims@.len() ==> match #[trigger] dims@[i] {
                        DimensionMetadata::Static(size) => shown.shape->0[i] == DimShot::Static(
                            size,
                        ),
                        DimensionMetadata::Symbolic(name) => shown.shape->0[i]
                            == DimShot::Symbolic(name@),
                    }
            }
        },
{
    if value.tensor is Some && value.tensor->0.shape is Some {
        let dims = value.tensor->0.shape->0@;
        assert forall|i: int| 0 <= i < dims.len() implies match #[trigger] dims[i] {
            DimensionMetadata::Static(size) => value@.tensor->0.shape->0[i] == DimShot::Static(
                size,
            ),
            DimensionMetadata::Symbolic(name) => value@.tensor->0.shape->0[i]
                == DimShot::Symbolic(name@),
        } by {
            assert(value@.tensor->0.shape->0[i] == dims[i]@);
        }
    }
}

/// The model of a snapshot lists its nodes and values in their order, its slots, its numbers, which
/// values are initializers, and the versions of each domain.
pub proof fn law_snapshot_shown(snapshot: OrtGraphSnapshot)
    ensures
        ({
            let shot = shot_of(snapshot);
            &&& shot.ir_version == snapshot.onnx_ir_version
            &&& shot.nodes.len() == snapshot.nodes@.len()
            &&& forall|n: int|
                0 <= n < snapshot.nodes@.len() ==> #[trigger] shot.nodes[n] == snapshot.nodes@[n]@
            &&& shot.values.len() == snapshot.values@.len()
            &&& forall|v: int|
                0 <= v < snapshot.values@.len() ==> #[trigger] shot.values[v]
                    == snapshot.values@[v]@
            &&& shot.node_by_ort_id == snapshot.node_by_ort_id@
            &&& shot.inputs == snapshot.graph_input_slots@
            &&& shot.outputs == snapshot.graph_output_slots@
            &&& forall|v: u32| #[trigger]
                shot.initializers.contains(v) == snapshot.initializers@.contains_key(v)
            &&& forall|domain: Seq<char>| #[trigger]
                shot.versions.contains_key(domain)
                    == snapshot.node_schema_versions@.contains_key(domain)
            &&& forall|domain: Seq<char>, version: i32|
                #![trigger shot.versions[domain].contains(version)]
                shot.versions.contains_key(domain) ==> shot.versions[domain].contains(version)
                    == snapshot.node_schema_versions@[domain]@.contains(version)
        }),
{
}

/// The tables of a snapshot agree: names find their values, numbers find nodes that have them,
/// initializers repeat the types of their values, the versions of a domain rise, every slot that is
/// not empty holds a value of the graph, and no node has two bodies under one attribute.
pub proof fn law_snapshot_tables(snapshot: OrtGraphSnapshot)
    requires
        well_formed(snapshot),
    ensures
        forall|v: int|
            0 <= v < snapshot.values@.len() ==> snapshot.value_by_name@.contains_key(
                (#[trigger] snapshot.values@[v]).name@,
            ) && snapshot.value_by_name@[snapshot.values@[v].name@] == v,
        forall|name: Seq<char>| #[trigger]
            snapshot.value_by_name@.contains_key(name) ==> snapshot.value_by_name@[name]
                < snapshot.values@.len() && snapshot.values@[snapshot.value_by_name@[name] as int].name@
                == name,
        forall|id: usize| #[trigger]
            snapshot.node_by_ort_id@.contains_key(id) ==> snapshot.node_by_ort_id@[id]
                < snapshot.nodes@.len()
                && snapshot.nodes@[snapshot.node_by_ort_id@[id] as int].ort_node_id == id,
        forall|v: u32| #[trigger]
            snapshot.initializers@.contains_key(v) ==> {
                &&& v < snapshot.values@.len()
                &&& snapshot.initializers@[v].value == v
                &&& snapshot.values@[v as int].tensor matches Some(tensor)
                    ==> snapshot.initializers@[v].dtype == tensor.dtype
                &&& snapshot.values@[v as int].tensor is None ==> snapshot.initializers@[v].dtype
                    is None && snapshot.initializers@[v].shape is None
            },
        forall|domain: Seq<char>, a: int, b: int|
            snapshot.node_schema_versions@.contains_key(domain) && 0 <= a < b
                < snapshot.node_schema_versions@[domain]@.len()
                ==> #[trigger] snapshot.node_schema_versions@[domain]@[a]
                < #[trigger] snapshot.node_schema_versions@[domain]@[b],
        forall|n: int, k: int|
            0 <= n < snapshot.nodes@.len() && 0 <= k < snapshot.nodes@[n].input_slots@.len() && (
            #[trigger] snapshot.nodes@[n].input_slots@[k]) is Some
                ==> snapshot.nodes@[n].input_slots@[k]->0 < snapshot.values@.len(),
        forall|n: int, k: int|
            0 <= n < snapshot.nodes@.len() && 0 <= k < snapshot.nodes@[n].output_slots@.len() && (
            #[trigger] snapshot.nodes@[n].output_slots@[k]) is Some
                ==> snapshot.nodes@[n].output_slots@[k]->0 < snapshot.values@.len(),
        forall|e: int, f: int|
            0 <= e < f < snapshot.subgraphs@.len() ==> (#[trigger] snapshot.subgraphs@[e]).node != (
            #[trigger] snapshot.subgraphs@[f]).node || snapshot.subgraphs@[e].attribute@
                != snapshot.subgraphs@[f].attribute@,
{
    let shot = shot_of(snapshot);
    law_snapshot_shown(snapshot);
    assert forall|v: int|
        0 <= v < snapshot.values@.len() implies snapshot.value_by_name@.contains_key(
        (#[trigger] snapshot.values@[v]).name@,
    ) && snapshot.value_by_name@[snapshot.values@[v].name@] == v by {
        assert(shot.values[v].name == snapshot.values@[v].name@);
    }
    assert forall|name: Seq<char>| #[trigger]
        snapshot.value_by_name@.contains_key(name) implies snapshot.value_by_name@[name]
        < snapshot.values@.len() && snapshot.values@[snapshot.value_by_name@[name] as int].name@
        == name by {
        let v = snapshot.value_by_name@[name] as int;
        assert(shot.values[v].name == name);
        assert(shot.values[v] == snapshot.values@[v]@);
    }
    assert forall|id: usize| #[trigger]
        snapshot.node_by_ort_id@.contains_key(id) implies snapshot.node_by_ort_id@[id]
        < snapshot.nodes@.len()
        && snapshot.nodes@[snapshot.node_by_ort_id@[id] as int].ort_node_id == id by {
        assert(shot.node_by_ort_id.contains_key(id));
        let n = snapshot.node_by_ort_id@[id] as int;
        assert(shot.nodes[n] == snapshot.nodes@[n]@);
    }
    assert forall|v: u32| #[trigger] snapshot.initializers@.contains_key(v) implies {
        &&& v < snapshot.values@.len()
        &&& snapshot.initializers@[v].value == v
        &&& snapshot.values@[v as int].tensor matches Some(tensor)
            ==> snapshot.initializers@[v].dtype == tensor.dtype
        &&& snapshot.values@[v as int].tensor is None ==> snapshot.initializers@[v].dtype is None
            && snapshot.initializers@[v].shape is None
    } by {
        assert(shot.values[v as int] == snapshot.values@[v as int]@);
    }
    assert forall|n: int, k: int|
        0 <= n < snapshot.nodes@.len() && 0 <= k < snapshot.nodes@[n].input_slots@.len() && (
        #[trigger] snapshot.nodes@[n].input_slots@[k]) is Some implies
        snapshot.nodes@[n].input_slots@[k]->0 < snapshot.values@.len() by {
        assert(shot.nodes[n].input_slots[k] == snapshot.nodes@[n].input_slots@[k]);
    }
    assert forall|n: int, k: int|
        0 <= n < snapshot.nodes@.len() && 0 <= k < snapshot.nodes@[n].output_slots@.len() && (
        #[trigger] snapshot.nodes@[n].output_slots@[k]) is Some implies
        snapshot.nodes@[n].output_slots@[k]->0 < snapshot.values@.len() by {
        assert(shot.nodes[n].output_slots[k] == snapshot.nodes@[n].output_slots@[k]);
    }
}

/// The models of an initializer, of an input and of an output.
pub proof fn law_tensors_shown(init: InitData, input: TensorRef, output: OutRef)
    ensures
        init@.shape == init.shape@,
        init@.dtype == init.dtype,
        init@.count == init.count,
        init@.owned is Some <==> init.owned is Some,
        init.owned matches Some(bytes) ==> init@.owned->0 == bytes@,
        input@.name == input.name@,
        input@.source == input.source,
        input@.ctx_index == input.ctx_index,
        input@.constant == input.constant,
        input@.shape_const == input.shape_const,
        input@.init is Some <==> input.init is Some,
        input.init matches Some(data) ==> input@.init->0 == data@,
        output@.name == output.name@,
        output@.external == output.external,
        output@.ctx_index == output.ctx_index,
        output@.otype == output.otype,
{
}

/// The model of a planned node: its fields, its inputs and outputs in order, and its bodies.
pub proof fn law_planned_node_shown(node: NodeDesc)
    ensures
        ({
            let shown = node_model(node);
            &&& shown.op_type == node.op_type@
            &&& shown.domain == node.domain@
            &&& shown.since_version == node.since_version
            &&& shown.shape_safety == node.shape_safety
            &&& shown.node_id == node.node_id
            &&& shown.name == node.name@
            &&& shown.attributes == *node.attributes
            &&& shown.inputs.len() == node.inputs@.len()
            &&& forall|k: int|
                0 <= k < node.inputs@.len() ==> #[trigger] shown.inputs[k] == node.inputs@[k]@
            &&& shown.outputs.len() == node.outputs@.len()
            &&& forall|k: int|
                0 <= k < node.outputs@.len() ==> #[trigger] shown.outputs[k] == node.outputs@[k]@
            &&& shown.subgraphs.len() == node.subgraphs@.len()
            &&& forall|b: int|
                0 <= b < node.subgraphs@.len() ==> #[trigger] shown.subgraphs[b] == body_model(
                    node.subgraphs@[b],
                )
        }),
{
    lemma_body_models(node.subgraphs@);
}

/// The model of a planned body: its attribute, its names and its nodes in order.
pub proof fn law_planned_body_shown(body: SubgraphDesc)
    ensures
        ({
            let shown = body_model(body);
            &&& shown.attr_name == body.attr_name@
            &&& shown.input_names.len() == body.input_names@.len()
            &&& forall|k: int|
                0 <= k < body.input_names@.len() ==> #[trigger] shown.input_names[k]
                    == body.input_names@[k]@
            &&& shown.output_names.len() == body.output_names@.len()
            &&& forall|k: int|
                0 <= k < body.output_names@.len() ==> #[trigger] shown.output_names[k]
                    == body.output_names@[k]@
            &&& shown.nodes.len() == body.nodes@.len()
            &&& forall|n: int|
                0 <= n < body.nodes@.len() ==> #[trigger] shown.nodes[n] == node_model(
                    body.nodes@[n],
                )
        }),
{
    lemma_node_models(body.nodes@);
}

/// The model of a draft.
pub proof fn law_draft_shown(draft: PlanDraft)
    ensures
        draft@.has_control_flow == draft.has_control_flow,
        draft@.has_compile_barrier == draft.has_compile_barrier,
        draft@.uses_float64 == draft.uses_float64,
        draft@.nodes.len() == draft.nodes@.len(),
        forall|n: int|
            0 <= n < draft.nodes@.len() ==> #[trigger] draft@.nodes[n] == node_model(
                draft.nodes@[n],
            ),
{
    lemma_node_models(draft.nodes@);
}

proof fn lemma_side_bodies(entries: Seq<SidecarEntry>)
    ensures
        side_bodies(entries).len() == entries.len(),
        forall|e: int|
            0 <= e < entries.len() ==> {
                let shown = #[trigger] side_bodies(entries)[e];
                &&& shown.node == entries[e].node
                &&& shown.attribute == entries[e].attribute@
                &&& shown.side == side_model(entries[e].sidecars)
            },
    decreases entries.len(),
{
    if entries.len() > 0 {
        let front = entries.drop_last();
        lemma_side_bodies(front);
        assert forall|e: int| 0 <= e < entries.len() implies {
            let shown = #[trigger] side_bodies(entries)[e];
            &&& shown.node == entries[e].node
            &&& shown.attribute == entries[e].attribute@
            &&& shown.side == side_model(entries[e].sidecars)
        } by {
            if e < front.len() {
                assert(front[e] == entries[e]);
                assert(side_bodies(front)[e].node == entries[e].node);
            }
        }
    }
}

/// The model of what is kept beside a graph: the facts of its nodes, the layout and the bytes of
/// its initializers, and what is kept beside its bodies.
pub proof fn law_sidecars_shown(side: GraphSidecars)
    ensures
        ({
            let shown = side_model(side);
            &&& shown.nodes == side.nodes@
            &&& forall|v: u32| #[trigger]
                shown.initializers.contains_key(v) == side.initializers@.contains_key(v)
            &&& forall|v: u32| #[trigger]
                shown.initializers.contains_key(v) ==> shown.initializers[v].0
                    == side.initializers@[v].layout@ && shown.initializers[v].1 == data_view(
                    side.initializers@[v].data,
                )
            &&& shown.subgraphs.len() == side.subgraphs@.len()
            &&& forall|e: int|
                0 <= e < side.subgraphs@.len() ==> {
                    let body = #[trigger] shown.subgraphs[e];
                    &&& body.node == side.subgraphs@[e].node
                    &&& body.attribute == side.subgraphs@[e].attribute@
                    &&& body.side == side_model(side.subgraphs@[e].sidecars)
                }
        }),
{
    lemma_side_bodies(side.subgraphs@);
}

/// The model of an entry of the registry.
pub proof fn law_entry_shown(entry: OpEntry)
    ensures
        entry@.domain == entry.registration.domain@,
        entry@.op_type == entry.registration.op_type@,
        entry@.min_opset == entry.registration.min_opset,
        entry@.max_opset == entry.registration.max_opset,
        entry@.operator == entry.registration.operator,
        entry@.safety == entry.safety,
        entry@.reason == entry.reason@,
{
}

/// The model of a point on a counter track.
pub proof fn law_sample_shown(sample: CounterSample)
    ensures
        sample@.track == sample.track@,
        sample@.key == sample.key@,
        sample@.ts == sample.ts,
        sample.value matches CounterValue::Whole(number) ==> sample@.value == ValueModel::Whole(
            number,
        ),
        sample.value matches CounterValue::Written(text) ==> sample@.value == ValueModel::Written(
            text@,
        ),
{
}

/// The model of what a scan asks for next: shapes, directions, slices and stacks as they are.
pub proof fn law_action_shown(action: ScanAction)
    ensures
        match action {
            ScanAction::Template(shapes) => {
                &&& action_model(action) matches ActionModel::Template(shown)
                &&& shown.len() == shapes@.len()
                &&& forall|i: int|
                    0 <= i < shapes@.len() ==> #[trigger] shown[i] == shapes@[i]@
            },
            ScanAction::Kernel { reverse_in, reverse_out } => action_model(action)
                == (ActionModel::Kernel { reverse_in, reverse_out }),
            ScanAction::Step(slices) => {
                &&& action_model(action) matches ActionModel::Step(shown)
                &&& shown.len() == slices@.len()
                &&& forall|i: int|
                    0 <= i < slices@.len() ==> (#[trigger] shown[i]).start == slices@[i].start@
                        && shown[i].stop == slices@[i].stop@ && shown[i].axis == slices@[i].axis
            },
            ScanAction::Empty(shapes) => {
                &&& action_model(action) matches ActionModel::Empty(shown)
                &&& shown.len() == shapes@.len()
                &&& forall|i: int|
                    0 <= i < shapes@.len() ==> #[trigger] shown[i] == shapes@[i]@
            },
            ScanAction::Stack(list) => {
                &&& action_model(action) matches ActionModel::Stack(shown)
                &&& shown.len() == list@.len()
                &&& forall|i: int|
                    0 <= i < list@.len() ==> (#[trigger] shown[i]).0 == list@[i].0 && shown[i].1
                        == list@[i].1@
            },
        },
{
}

/// A table of times tells of each of its names the time and the calls of its entry, and of no other
/// name; the whole time and all calls are those of the entries together.
pub proof fn law_times_shown(table: TimeTable, i: int, name: Seq<char>)
    requires
        table.wf(),
    ensures
        table@.contains_key(name) <==> exists|k: int|
            0 <= k < table.entries@.len() && (#[trigger] table.entries@[k]).name@ == name,
        0 <= i < table.entries@.len() ==> table@[table.entries@[i].name@] == (
            table.entries@[i].micros,
            table.entries@[i].calls,
        ),
        0 <= i < table.entries@.len() ==> table.entries@[i].micros <= table.total
            && table.entries@[i].calls <= table.calls,
{
    lemma_time_map(table.entries@);
    if 0 <= i < table.entries@.len() {
        lemma_part_of_sums(table.entries@, i);
    }
}

proof fn lemma_part_of_sums(entries: Seq<TimeEntry>, i: int)
    requires
        0 <= i < entries.len(),
    ensures
        entries[i].micros <= micros_sum(entries),
        entries[i].calls <= calls_sum(entries),
    decreases entries.len(),
{
    if i < entries.len() - 1 {
        lemma_part_of_sums(entries.drop_last(), i);
    }
}

/// A table of declined operators tells of each of its operators the number and the reason of its
/// entry, and of no other operator.
pub proof fn law_declined_shown(table: DeclinedTable, i: int, op: Seq<char>)
    requires
        table.wf(),
    ensures
        table@.contains_key(op) <==> exists|k: int|
            0 <= k < table.entries@.len() && (#[trigger] table.entries@[k]).op@ == op,
        0 <= i < table.entries@.len() ==> table@[table.entries@[i].op@] == (
            table.entries@[i].count,
            table.entries@[i].reason@,
        ),
{
    lemma_declined_map(table.entries@);
}

} // verus!
