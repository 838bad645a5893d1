//! What holds of every captured snapshot.

use vstd::prelude::*;

use crate::ir::{ir_feeds, ir_read_by, slots_of, IrState};
use crate::ort_graph::{
    capture_all, capture_bodies, capture_one, capture_versions, captured, ensure_part, ensure_slot,
    ensure_slots, import_opsets, lemma_present_live, load, metadata_of, node_of, with_inputs,
    with_outputs,
};
use crate::raw_graph::{
    fits, node_weight, nodes_weight, part_weight, slot_weight, slots_weight, RawGraph, RawNode,
    RawSubgraph, RawValueInfo,
};
use crate::snapshot::{
    ir_node_of, lower_dims, present, shot_with_node, shot_with_value, slots_live, value_named,
    value_shape, DimShot, NodeShot, Shot, ValueShot,
};
use crate::topology::{agreed, is_listing, linked, produces};

verus! {

/// Every value has a name of its own.
pub open spec fn names_distinct(values: Seq<ValueShot>) -> bool {
    &&& forall|i: int| 0 <= i < values.len() ==> (#[trigger] values[i]).name.len() > 0
    &&& forall|i: int, j: int|
        0 <= i < j < values.len() ==> (#[trigger] values[i]).name != (#[trigger] values[j]).name
}

/// The IR says the same as the metadata: nodes keep their optional input slots and drop holes
/// among their outputs, values are linked to the slots that mention them.
pub open spec fn mirrors(shot: Shot) -> bool {
    &&& shot.ir.compact
    &&& shot.nodes.len() <= u32::MAX
    &&& shot.values.len() <= u32::MAX
    &&& shot.ir.values.len() == shot.values.len()
    &&& shot.ir.nodes.len() == shot.nodes.len()
    &&& names_distinct(shot.values)
    &&& forall|v: int|
        0 <= v < shot.values.len() ==> (#[trigger] shot.ir.values[v]).name == shot.values[v].name
    &&& forall|n: int|
        0 <= n < shot.nodes.len() ==> {
            &&& #[trigger] shot.ir.nodes[n] == ir_node_of(shot.nodes[n])
            &&& slots_live(shot.nodes[n].input_slots, shot.values.len() as int)
            &&& slots_live(shot.nodes[n].output_slots, shot.values.len() as int)
            &&& shot.nodes[n].input_slots.len() <= u32::MAX
        }
    &&& forall|v: int, n: u32, i: u32|
        0 <= v < shot.values.len() ==> (#[trigger] shot.ir.values[v].uses.contains((n, i)) <==> n
            < shot.nodes.len() && i < shot.nodes[n as int].input_slots.len()
            && shot.nodes[n as int].input_slots[i as int] == Some(v as u32))
    &&& forall|v: int| 0 <= v < shot.values.len() ==> #[trigger] producer_agrees(shot, v)
}

/// The recorded producer of a value lists it as an output; without one, no node does.
pub open spec fn producer_agrees(shot: Shot, v: int) -> bool {
    match shot.ir.values[v].producer {
        Some(p) => p < shot.nodes.len() && shot.ir.nodes[p as int].outputs.contains(v as u32),
        None => forall|q: int|
            0 <= q < shot.nodes.len() ==> !(#[trigger] shot.ir.nodes[q]).outputs.contains(v as u32),
    }
}

/// No value is an output of two nodes.
pub open spec fn single_producer(shot: Shot) -> bool {
    forall|p: int, q: int, v: u32|
        0 <= p < shot.nodes.len() && 0 <= q < shot.nodes.len() && #[trigger] present(
            shot.nodes[p].output_slots,
        ).contains(v) && #[trigger] present(shot.nodes[q].output_slots).contains(v) ==> p == q
}

proof fn lemma_lowered(ir: IrState, dims: Seq<DimShot>)
    requires
        ir.next_symbol + dims.len() < u32::MAX,
    ensures
        lower_dims(ir, dims).0 == (IrState {
            symbols: lower_dims(ir, dims).0.symbols,
            next_symbol: lower_dims(ir, dims).0.next_symbol,
            ..ir
        }),
        lower_dims(ir, dims).0.next_symbol <= ir.next_symbol + dims.len(),
    decreases dims.len(),
{
    if dims.len() > 0 {
        lemma_lowered(ir, dims.drop_last());
    }
}

proof fn lemma_value_added(shot: Shot, value: ValueShot, weight: int)
    requires
        mirrors(shot),
        value_named(shot.values, value.name) is None,
        value.name.len() > 0,
        weight >= 1 + (match value_shape(value) {
            Some(dims) => dims.len(),
            None => 0,
        }),
        load(shot) + weight < u32::MAX,
    ensures
        mirrors(shot_with_value(shot, value)),
        load(shot_with_value(shot, value)) <= load(shot) + weight,
{
    let next = shot_with_value(shot, value);
    let dims = match value_shape(value) {
        Some(dims) => dims,
        None => Seq::empty(),
    };
    lemma_lowered(shot.ir, dims);
    let count = shot.values.len() as int;
    assert(next.ir.nodes == shot.ir.nodes);
    assert forall|i: int, j: int| 0 <= i < j < next.values.len() implies (
    #[trigger] next.values[i]).name != (#[trigger] next.values[j]).name by {
        assert(shot.values[i] == next.values[i]);
        if j < count {
            assert(shot.values[j] == next.values[j]);
        }
    }
    assert forall|i: int| 0 <= i < next.values.len() implies (#[trigger] next.values[i]).name.len()
        > 0 by {
        if i < count {
            assert(shot.values[i] == next.values[i]);
        }
    }
    assert forall|v: int| 0 <= v < count implies next.ir.values[v] == #[trigger] shot.ir.values[v] by {}
    assert forall|n: int| 0 <= n < next.nodes.len() implies slots_live(
        next.nodes[n].input_slots,
        next.values.len() as int,
    ) && slots_live(next.nodes[n].output_slots, next.values.len() as int)
        && #[trigger] next.ir.nodes[n] == ir_node_of(next.nodes[n])
        && next.nodes[n].input_slots.len() <= u32::MAX by {
        assert(shot.ir.nodes[n] == ir_node_of(shot.nodes[n]));
    }
    assert forall|v: int, n: u32, i: u32| 0 <= v < next.values.len() implies (
    #[trigger] next.ir.values[v].uses.contains((n, i)) <==> n < next.nodes.len() && i
        < next.nodes[n as int].input_slots.len() && next.nodes[n as int].input_slots[i as int]
        == Some(v as u32)) by {
        if v < count {
            assert(shot.ir.values[v].uses.contains((n, i)) <==> n < shot.nodes.len() && i
                < shot.nodes[n as int].input_slots.len()
                && shot.nodes[n as int].input_slots[i as int] == Some(v as u32));
        } else if n < shot.nodes.len() && i < shot.nodes[n as int].input_slots.len() {
            assert(shot.ir.nodes[n as int] == ir_node_of(shot.nodes[n as int]));
            assert(slots_live(shot.nodes[n as int].input_slots, count));
        }
    }
    assert forall|v: int| 0 <= v < next.values.len() implies #[trigger] producer_agrees(next, v) by {
        if v < count {
            assert(producer_agrees(shot, v));
            assert(next.ir.values[v] == shot.ir.values[v]);
        } else {
            assert forall|p: int| 0 <= p < next.nodes.len() implies !(
            #[trigger] next.ir.nodes[p]).outputs.contains(v as u32) by {
                assert(shot.ir.nodes[p] == ir_node_of(shot.nodes[p]));
                lemma_present_live(shot.nodes[p].output_slots, count);
            }
        }
    }
    assert forall|v: int| 0 <= v < next.values.len() implies (#[trigger] next.ir.values[v]).name
        == next.values[v].name by {
        if v < count {
            assert(next.ir.values[v] == shot.ir.values[v]);
        }
    }
}

proof fn lemma_slot(shot: Shot, slot: Option<RawValueInfo>)
    requires
        mirrors(shot),
        load(shot) + slot_weight(slot) < u32::MAX,
    ensures
        ensure_slot(shot, slot) matches Ok((next, id)) ==> {
            &&& mirrors(next)
            &&& load(next) <= load(shot) + slot_weight(slot)
            &&& shot.values.len() <= next.values.len()
            &&& id matches Some(v) ==> v < next.values.len() && (slot matches Some(info) && (
            info.name matches Ok(name) && next.values[v as int].name == name@))
            &&& next.nodes == shot.nodes
            &&& next == (Shot { ir: next.ir, values: next.values, ..shot })
            &&& next.ir.inputs == shot.ir.inputs
            &&& next.ir.outputs == shot.ir.outputs
        },
{
    if slot is Some {
        let info = slot->0;
        if info.name is Ok {
            let name = info.name->Ok_0@;
            if name.len() > 0 {
                if value_named(shot.values, name) is None && metadata_of(info.ty, name) is Ok {
                    let value = metadata_of(info.ty, name)->Ok_0;
                    lemma_value_added(shot, value, slot_weight(slot) as int);
                    let dims = match value_shape(value) {
                        Some(dims) => dims,
                        None => Seq::empty(),
                    };
                    lemma_lowered(shot.ir, dims);
                } else if value_named(shot.values, name) is Some {
                    let i = choose|i: int|
                        0 <= i < shot.values.len() && (#[trigger] shot.values[i]).name == name;
                }
            }
        }
    }
}

/// `slot` stands for the value that `id` names.
pub open spec fn stands_for(shot: Shot, slot: Option<RawValueInfo>, id: Option<u32>) -> bool {
    match slot {
        Some(info) => match info.name {
            Ok(name) => if name@.len() == 0 {
                id is None
            } else {
                id matches Some(v) && v < shot.values.len() && shot.values[v as int].name == name@
            },
            Err(_) => false,
        },
        None => id is None,
    }
}

proof fn lemma_slots(shot: Shot, slots: Seq<Option<RawValueInfo>>)
    requires
        mirrors(shot),
        load(shot) + slots_weight(slots) < u32::MAX,
    ensures
        ensure_slots(shot, slots) matches Ok((next, ids)) ==> {
            &&& mirrors(next)
            &&& load(next) <= load(shot) + slots_weight(slots)
            &&& shot.values.len() <= next.values.len()
            &&& forall|v: int|
                0 <= v < shot.values.len() ==> next.values[v] == #[trigger] shot.values[v]
            &&& slots_live(ids, next.values.len() as int)
            &&& ids.len() == slots.len()
            &&& forall|i: int|
                0 <= i < ids.len() ==> stands_for(next, #[trigger] slots[i], ids[i])
            &&& next == (Shot { ir: next.ir, values: next.values, ..shot })
            &&& next.ir.inputs == shot.ir.inputs
            &&& next.ir.outputs == shot.ir.outputs
        },
        slots.len() <= slots_weight(slots),
    decreases slots.len(),
{
    if slots.len() > 0 {
        let front = slots.drop_last();
        lemma_slots(shot, front);
        if ensure_slots(shot, front) is Ok {
            let (before, ids) = ensure_slots(shot, front)->Ok_0;
            lemma_slot(before, slots.last());
            if ensure_slot(before, slots.last()) is Ok {
                let (after, id) = ensure_slot(before, slots.last())->Ok_0;
                let all = ids.push(id);
                assert forall|i: int| 0 <= i < all.len() implies stands_for(
                    after,
                    #[trigger] slots[i],
                    all[i],
                ) by {
                    if i < ids.len() {
                        assert(front[i] == slots[i]);
                        assert(stands_for(before, front[i], ids[i]));
                    }
                }
                assert forall|i: int| 0 <= i < all.len() && (#[trigger] all[i]) is Some implies all[i]->0
                    < after.values.len() by {
                    if i < ids.len() {
                        assert(all[i] == ids[i]);
                    }
                }
            }
        }
    }
}

proof fn lemma_part(shot: Shot, part: Result<Vec<Option<RawValueInfo>>, String>)
    requires
        mirrors(shot),
        load(shot) + part_weight(part) < u32::MAX,
    ensures
        ensure_part(shot, part) matches Ok((next, ids)) ==> {
            &&& mirrors(next)
            &&& load(next) <= load(shot) + part_weight(part)
            &&& shot.values.len() <= next.values.len()
            &&& slots_live(ids, next.values.len() as int)
            &&& ids.len() <= part_weight(part)
            &&& next == (Shot { ir: next.ir, values: next.values, ..shot })
            &&& next.ir.inputs == shot.ir.inputs
            &&& next.ir.outputs == shot.ir.outputs
        },
{
    if part is Ok {
        lemma_slots(shot, part->Ok_0@);
    }
}

proof fn lemma_node_added(shot: Shot, node: NodeShot)
    requires
        mirrors(shot),
        shot.nodes.len() < u32::MAX,
        slots_live(node.input_slots, shot.values.len() as int),
        slots_live(node.output_slots, shot.values.len() as int),
        node.input_slots.len() <= u32::MAX,
    ensures
        mirrors(shot_with_node(shot, node)),
{
    let next = shot_with_node(shot, node);
    let id = shot.nodes.len() as u32;
    let count = shot.values.len() as int;
    let added = ir_node_of(node);
    lemma_present_live(node.output_slots, count);
    assert forall|n: int| 0 <= n < next.nodes.len() implies slots_live(
        next.nodes[n].input_slots,
        count,
    ) && slots_live(next.nodes[n].output_slots, count) && #[trigger] next.ir.nodes[n] == ir_node_of(
        next.nodes[n],
    ) && next.nodes[n].input_slots.len() <= u32::MAX by {
        if n < shot.nodes.len() {
            assert(shot.ir.nodes[n] == ir_node_of(shot.nodes[n]));
        }
    }
    assert forall|v: int, n: u32, i: u32| 0 <= v < count implies (
    #[trigger] next.ir.values[v].uses.contains((n, i)) <==> n < next.nodes.len() && i
        < next.nodes[n as int].input_slots.len() && next.nodes[n as int].input_slots[i as int]
        == Some(v as u32)) by {
        assert(shot.ir.values[v].uses.contains((n, i)) <==> n < shot.nodes.len() && i
            < shot.nodes[n as int].input_slots.len() && shot.nodes[n as int].input_slots[i as int]
            == Some(v as u32));
        assert(next.ir.values[v].uses == shot.ir.values[v].uses.union(
            slots_of(id, node.input_slots, v),
        ));
        if n < shot.nodes.len() {
            assert(next.nodes[n as int] == shot.nodes[n as int]);
        }
    }
    assert forall|v: int| 0 <= v < count implies #[trigger] producer_agrees(next, v) by {
        let before = shot.ir.values[v];
        assert(producer_agrees(shot, v));
        if !added.outputs.contains(v as u32) {
            assert(next.ir.values[v].producer == before.producer);
            match before.producer {
                Some(p) => {
                    assert(next.ir.nodes[p as int] == shot.ir.nodes[p as int]);
                },
                None => {
                    assert forall|p: int| 0 <= p < next.nodes.len() implies !(
                    #[trigger] next.ir.nodes[p]).outputs.contains(v as u32) by {
                        if p < shot.nodes.len() {
                            assert(next.ir.nodes[p] == shot.ir.nodes[p]);
                        }
                    }
                },
            }
        } else {
            assert(next.ir.nodes[id as int] == added);
        }
    }
    assert forall|v: int| 0 <= v < count implies (#[trigger] next.ir.values[v]).name
        == next.values[v].name by {
        assert(shot.ir.values[v].name == shot.values[v].name);
    }
}

proof fn lemma_bodies(shot: Shot, node: u32, list: Seq<RawSubgraph>)
    requires
        mirrors(shot),
    ensures
        capture_bodies(shot, node, list) matches Ok(next) ==> {
            &&& mirrors(next)
            &&& load(next) == load(shot)
            &&& next.ir.inputs == shot.ir.inputs
            &&& next.ir.outputs == shot.ir.outputs
            &&& next.inputs == shot.inputs
            &&& next.outputs == shot.outputs
        },
    decreases list.len(),
{
    if list.len() > 0 {
        lemma_bodies(shot, node, list.drop_last());
        if capture_bodies(shot, node, list.drop_last()) is Ok {
            let before = capture_bodies(shot, node, list.drop_last())->Ok_0;
            if capture_bodies(shot, node, list) is Ok {
                let next = capture_bodies(shot, node, list)->Ok_0;
                assert(next.nodes == before.nodes && next.values == before.values);
                assert(next.ir.nodes == before.ir.nodes && next.ir.values == before.ir.values);
                lemma_same_mirror(before, next);
            }
        }
    }
}

proof fn lemma_same_mirror(before: Shot, next: Shot)
    requires
        mirrors(before),
        next.nodes == before.nodes,
        next.values == before.values,
        next.ir.nodes == before.ir.nodes,
        next.ir.values == before.ir.values,
        next.ir.compact == before.ir.compact,
    ensures
        mirrors(next),
{
    assert forall|v: int, n: u32, i: u32| 0 <= v < next.values.len() implies (
    #[trigger] next.ir.values[v].uses.contains((n, i)) <==> n < next.nodes.len() && i
        < next.nodes[n as int].input_slots.len() && next.nodes[n as int].input_slots[i as int]
        == Some(v as u32)) by {
        assert(before.ir.values[v].uses.contains((n, i)) <==> n < before.nodes.len() && i
            < before.nodes[n as int].input_slots.len()
            && before.nodes[n as int].input_slots[i as int] == Some(v as u32));
    }
    assert forall|v: int| 0 <= v < next.values.len() implies #[trigger] producer_agrees(next, v) by {
        assert(producer_agrees(before, v));
    }
}

proof fn lemma_one(shot: Shot, node: RawNode)
    requires
        mirrors(shot),
        load(shot) + node_weight(Some(node)) < u32::MAX,
    ensures
        capture_one(shot, node) matches Ok(next) ==> {
            &&& mirrors(next)
            &&& load(next) <= load(shot) + node_weight(Some(node))
            &&& next.ir.inputs == shot.ir.inputs
            &&& next.ir.outputs == shot.ir.outputs
            &&& next.inputs == shot.inputs
            &&& next.outputs == shot.outputs
        },
{
    lemma_part(shot, node.inputs);
    if ensure_part(shot, node.inputs) is Ok {
        let (first, input_slots) = ensure_part(shot, node.inputs)->Ok_0;
        lemma_part(first, node.outputs);
        if ensure_part(first, node.outputs) is Ok {
            let (second, output_slots) = ensure_part(first, node.outputs)->Ok_0;
            if node_of(node, input_slots, output_slots) is Ok {
                let record = node_of(node, input_slots, output_slots)->Ok_0;
                lemma_node_added(second, record);
                if node.subgraphs is Ok {
                    lemma_bodies(
                        shot_with_node(second, record),
                        second.nodes.len() as u32,
                        node.subgraphs->Ok_0@,
                    );
                }
            }
        }
    }
}

proof fn lemma_all(shot: Shot, nodes: Seq<Option<RawNode>>)
    requires
        mirrors(shot),
        load(shot) + nodes_weight(nodes) < u32::MAX,
    ensures
        capture_all(shot, nodes) matches Ok(next) ==> {
            &&& mirrors(next)
            &&& load(next) <= load(shot) + nodes_weight(nodes)
            &&& next.ir.inputs == shot.ir.inputs
            &&& next.ir.outputs == shot.ir.outputs
            &&& next.inputs == shot.inputs
            &&& next.outputs == shot.outputs
        },
    decreases nodes.len(),
{
    if nodes.len() > 0 {
        lemma_all(shot, nodes.drop_last());
        if capture_all(shot, nodes.drop_last()) is Ok && nodes.last() is Some {
            lemma_one(capture_all(shot, nodes.drop_last())->Ok_0, nodes.last()->0);
        }
    }
}

proof fn lemma_opsets(ir: IrState, opsets: Seq<(String, i64)>)
    ensures
        import_opsets(ir, opsets) matches Ok(next) ==> next == (IrState {
            opsets: next.opsets,
            ..ir
        }),
    decreases opsets.len(),
{
    if opsets.len() > 0 {
        lemma_opsets(ir, opsets.drop_last());
    }
}

/// The IR of a snapshot mirrors its metadata: values have distinct names, nodes keep their optional
/// slots, links agree with slots, and the IR's inputs and outputs are the present boundary slots.
pub proof fn law_capture_mirrors(raw: RawGraph)
    requires
        fits(raw),
    ensures
        captured(raw) matches Ok(shot) ==> {
            &&& mirrors(shot)
            &&& shot.ir.inputs == present(shot.inputs)
            &&& shot.ir.outputs == present(shot.outputs)
        },
{
    if capture_versions(raw) is Ok {
        let first = capture_versions(raw)->Ok_0;
        lemma_opsets(crate::ir::empty_state(), raw.opsets->Ok_0@);
        assert(mirrors(first));
        lemma_part(first, raw.inputs);
        if ensure_part(first, raw.inputs) is Ok {
            let (second, inputs) = ensure_part(first, raw.inputs)->Ok_0;
            let third = with_inputs(second, inputs);
            lemma_same_mirror(second, third);
            lemma_part(third, raw.outputs);
            if ensure_part(third, raw.outputs) is Ok {
                let (fourth, outputs) = ensure_part(third, raw.outputs)->Ok_0;
                let fifth = with_outputs(fourth, outputs);
                lemma_same_mirror(fourth, fifth);
                lemma_part(fifth, raw.initializers);
                if ensure_part(fifth, raw.initializers) is Ok {
                    let (sixth, initializers) = ensure_part(fifth, raw.initializers)->Ok_0;
                    let seventh = Shot { initializers: present(initializers).to_set(), ..sixth };
                    lemma_same_mirror(sixth, seventh);
                    if raw.nodes is Ok {
                        lemma_all(seventh, raw.nodes->Ok_0@);
                    }
                }
            }
        }
    }
}

/// The IR of a snapshot is linked.
pub proof fn law_mirror_links(shot: Shot)
    requires
        mirrors(shot),
    ensures
        linked(shot.ir),
{
    let ir = shot.ir;
    assert forall|n: int, i: int|
        0 <= n < ir.nodes.len() && 0 <= i < ir.nodes[n].inputs.len() && (
        #[trigger] ir.nodes[n].inputs[i]) is Some implies ir.nodes[n].inputs[i]->0 < ir.values.len() by {
        assert(ir.nodes[n] == ir_node_of(shot.nodes[n]));
    }
    assert forall|n: int, i: int|
        0 <= n < ir.nodes.len() && 0 <= i < ir.nodes[n].outputs.len() implies #[trigger] ir.nodes[n].outputs[i]
        < ir.values.len() by {
        assert(ir.nodes[n] == ir_node_of(shot.nodes[n]));
        lemma_present_live(shot.nodes[n].output_slots, shot.values.len() as int);
    }
    assert forall|v: int, n: u32, i: u32| 0 <= v < ir.values.len() implies (
    #[trigger] ir.values[v].uses.contains((n, i)) <==> n < ir.nodes.len() && i
        < ir.nodes[n as int].inputs.len() && ir.nodes[n as int].inputs[i as int] == Some(
        v as u32,
    )) by {
        if n < ir.nodes.len() {
            assert(ir.nodes[n as int] == ir_node_of(shot.nodes[n as int]));
        }
    }
    assert forall|v: int, p: u32|
        0 <= v < ir.values.len() && ir.values[v].producer == Some(p) implies #[trigger] produces(
        ir,
        p,
        v,
    ) by {
        assert(producer_agrees(shot, v));
    }
    assert forall|n: int| 0 <= n < ir.nodes.len() implies (#[trigger] ir.nodes[n]).inputs.len()
        <= u32::MAX by {
        assert(ir.nodes[n] == ir_node_of(shot.nodes[n]));
    }
}

/// Where no value has two producers, readers and producers agree.
pub proof fn law_single_producer_agrees(shot: Shot, order: Seq<u32>)
    requires
        mirrors(shot),
        single_producer(shot),
        is_listing(shot.ir, order),
    ensures
        agreed(shot.ir, order),
{
    let ir = shot.ir;
    assert forall|a: int, b: int|
        0 <= a < order.len() && 0 <= b < order.len() && #[trigger] ir_read_by(
            ir,
            order[a] as int,
            order[b] as int,
        ) implies ir_feeds(ir, order[a] as int, order[b] as int) by {
        let p = order[a] as int;
        let n = order[b] as int;
        let (i, slot) = choose|i: int, slot: u32|
            0 <= i < ir.nodes[p].outputs.len() && #[trigger] ir.nodes[p].outputs[i]
                < ir.values.len() && #[trigger] ir.values[ir.nodes[p].outputs[i] as int].uses.contains((n as u32, slot));
        let v = ir.nodes[p].outputs[i] as int;
        assert(ir.nodes[p] == ir_node_of(shot.nodes[p]));
        assert(ir.nodes[n] == ir_node_of(shot.nodes[n]));
        assert(ir.nodes[p].outputs.contains(v as u32));
        assert(producer_agrees(shot, v));
        let producer = ir.values[v].producer;
        assert(producer is Some);
        let q = producer->0 as int;
        assert(ir.nodes[q] == ir_node_of(shot.nodes[q]));
        assert(present(shot.nodes[p].output_slots).contains(v as u32));
        assert(present(shot.nodes[q].output_slots).contains(v as u32));
        assert(p == q);
        assert(ir.nodes[n].inputs[slot as int] == Some(v as u32));
    }
}

/// Every slot of a list stands for the value of its name; a missing or unnamed slot stays empty.
pub proof fn law_slots_keep_names(shot: Shot, slots: Seq<Option<RawValueInfo>>)
    requires
        mirrors(shot),
        load(shot) + slots_weight(slots) < u32::MAX,
    ensures
        ensure_slots(shot, slots) matches Ok((next, ids)) ==> ids.len() == slots.len() && forall|
            i: int,
        |
            0 <= i < ids.len() ==> stands_for(next, #[trigger] slots[i], ids[i]),
{
    lemma_slots(shot, slots);
}

} // verus!
