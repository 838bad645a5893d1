//! Which graphs can be captured: what has to be readable, and what does not matter.

use vstd::prelude::*;

use crate::graph_laws::{declares, graph_slots, lemma_opsets, names, node_slots};
use crate::ort_graph::{
    capture_all, capture_bodies, capture_boundary, capture_one, capture_versions, captured,
    ensure_part, ensure_slot, ensure_slots, metadata_of, node_of, with_inputs, with_outputs,
};
use crate::raw_graph::{RawGraph, RawNode, RawSubgraph, RawValueInfo};
use crate::snapshot::{shot_with_node, shot_with_value, value_named, Shot, ValueShot};

verus! {

/// One of the first `i` slots has that name.
pub open spec fn named_before(
    slots: Seq<Option<RawValueInfo>>,
    i: int,
    name: Seq<char>,
) -> bool {
    exists|j: int| 0 <= j < i && names(#[trigger] slots[j], name)
}

/// A slot that is there has a readable name; if it is the first of that name, and the name is not
/// empty, its type is no tensor type that could not be read.
pub open spec fn slot_is_read(slots: Seq<Option<RawValueInfo>>, i: int) -> bool {
    slots[i] matches Some(info) ==> {
        &&& info.name is Ok
        &&& info.name->Ok_0@.len() > 0 && !named_before(slots, i, info.name->Ok_0@) ==> !(info.ty
            is Tensor && info.ty->Tensor_0 is Err)
    }
}

/// The node is there; its lists of slots, its number, names, versions and bodies can be read; and
/// each body has an attribute and a graph that is captured.
pub open spec fn node_is_read(node: Option<RawNode>) -> bool {
    &&& node is Some
    &&& node->0.inputs is Ok
    &&& node->0.outputs is Ok
    &&& node->0.id is Ok
    &&& node->0.name is Ok
    &&& node->0.domain is Ok
    &&& node->0.op_type is Ok
    &&& node->0.since_version is Ok
    &&& node->0.subgraphs is Ok
    &&& forall|x: int|
        0 <= x < node->0.subgraphs->Ok_0@.len() ==> {
            let body = #[trigger] node->0.subgraphs->Ok_0@[x];
            body.attribute@.len() > 0 && body.graph is Some && captured(*body.graph->0) is Ok
        }
}

/// The values are those that the slots name.
spec fn knows(values: Seq<ValueShot>, seen: Seq<Option<RawValueInfo>>) -> bool {
    forall|name: Seq<char>|
        name.len() > 0 ==> (#[trigger] value_named(values, name) is Some <==> named_before(
            seen,
            seen.len() as int,
            name,
        ))
}

/// The slots behind the first `from` are read.
spec fn read_from(slots: Seq<Option<RawValueInfo>>, from: int) -> bool {
    forall|i: int| from <= i < slots.len() ==> #[trigger] slot_is_read(slots, i)
}

proof fn lemma_prefix(a: Seq<Option<RawValueInfo>>, b: Seq<Option<RawValueInfo>>, i: int)
    requires
        0 <= i < a.len(),
    ensures
        slot_is_read(a + b, i) == slot_is_read(a, i),
{
    let all = a + b;
    assert(all[i] == a[i]);
    assert forall|name: Seq<char>| named_before(all, i, name) == named_before(a, i, name) by {
        if named_before(all, i, name) {
            let j = choose|j: int| 0 <= j < i && names(#[trigger] all[j], name);
            assert(names(a[j], name));
        }
        if named_before(a, i, name) {
            let j = choose|j: int| 0 <= j < i && names(#[trigger] a[j], name);
            assert(names(all[j], name));
        }
    }
}

/// More slots can be read exactly if those before can and the new ones can as well.
proof fn lemma_read_more(a: Seq<Option<RawValueInfo>>, b: Seq<Option<RawValueInfo>>, from: int)
    requires
        0 <= from <= a.len(),
    ensures
        read_from(a + b, from) == (read_from(a, from) && read_from(a + b, a.len() as int)),
{
    let all = a + b;
    if read_from(all, from) {
        assert forall|i: int| from <= i < a.len() implies #[trigger] slot_is_read(a, i) by {
            lemma_prefix(a, b, i);
            assert(slot_is_read(all, i));
        }
    }
    if read_from(a, from) && read_from(all, a.len() as int) {
        assert forall|i: int| from <= i < all.len() implies #[trigger] slot_is_read(all, i) by {
            if i < a.len() {
                lemma_prefix(a, b, i);
                assert(slot_is_read(a, i));
            }
        }
    }
}

proof fn lemma_slot(shot: Shot, seen: Seq<Option<RawValueInfo>>, slot: Option<RawValueInfo>)
    requires
        knows(shot.values, seen),
    ensures
        ensure_slot(shot, slot) is Ok <==> slot_is_read(seen.push(slot), seen.len() as int),
        ensure_slot(shot, slot) matches Ok(next) ==> knows(next.0.values, seen.push(slot)),
{
    let all = seen.push(slot);
    let n = seen.len() as int;
    assert(all[n] == slot);
    assert forall|name: Seq<char>| named_before(all, n, name) == named_before(seen, n, name) by {
        if named_before(all, n, name) {
            let j = choose|j: int| 0 <= j < n && names(#[trigger] all[j], name);
            assert(names(seen[j], name));
        }
        if named_before(seen, n, name) {
            let j = choose|j: int| 0 <= j < n && names(#[trigger] seen[j], name);
            assert(names(all[j], name));
        }
    }
    if slot is Some && slot->0.name is Ok && slot->0.name->Ok_0@.len() > 0 {
        let name = slot->0.name->Ok_0@;
        assert(value_named(shot.values, name) is Some == named_before(all, n, name));
    }
    if ensure_slot(shot, slot) is Ok {
        let next = ensure_slot(shot, slot)->Ok_0.0;
        assert forall|name: Seq<char>| name.len() > 0 implies (#[trigger] value_named(
            next.values,
            name,
        ) is Some <==> named_before(all, n + 1, name)) by {
            assert(value_named(shot.values, name) is Some == named_before(seen, n, name));
            assert(named_before(all, n + 1, name) == (named_before(all, n, name) || names(
                slot,
                name,
            ))) by {
                if named_before(all, n + 1, name) {
                    let j = choose|j: int| 0 <= j < n + 1 && names(#[trigger] all[j], name);
                    if j < n {
                        assert(names(all[j], name));
                    }
                }
                if named_before(all, n, name) {
                    let j = choose|j: int| 0 <= j < n && names(#[trigger] all[j], name);
                    assert(names(all[j], name));
                }
                if names(slot, name) {
                    assert(names(all[n], name));
                }
            }
            if next.values != shot.values {
                let own = slot->0.name->Ok_0@;
                let value = metadata_of(slot->0.ty, own)->Ok_0;
                assert(next == shot_with_value(shot, value));
                assert(value.name == own);
                let values = shot.values;
                if exists|i: int| 0 <= i < values.len() && (#[trigger] values[i]).name == name {
                    let i = choose|i: int|
                        0 <= i < values.len() && (#[trigger] values[i]).name == name;
                    assert(next.values[i].name == name);
                }
                if own == name {
                    assert(next.values[values.len() as int].name == name);
                }
                if exists|i: int|
                    0 <= i < next.values.len() && (#[trigger] next.values[i]).name == name {
                    let i = choose|i: int|
                        0 <= i < next.values.len() && (#[trigger] next.values[i]).name == name;
                    if i < values.len() {
                        assert(values[i].name == name);
                    }
                }
            }
        }
    }
}

proof fn lemma_slots(shot: Shot, seen: Seq<Option<RawValueInfo>>, slots: Seq<Option<RawValueInfo>>)
    requires
        knows(shot.values, seen),
    ensures
        ensure_slots(shot, slots) is Ok <==> read_from(seen + slots, seen.len() as int),
        ensure_slots(shot, slots) matches Ok(next) ==> knows(next.0.values, seen + slots),
    decreases slots.len(),
{
    if slots.len() == 0 {
        assert(seen + slots =~= seen);
    } else {
        let front = slots.drop_last();
        let last = slots.last();
        lemma_slots(shot, seen, front);
        let before = seen + front;
        assert(seen + slots =~= before.push(last));
        assert(before.push(last) =~= before + seq![last]);
        lemma_read_more(before, seq![last], seen.len() as int);
        if ensure_slots(shot, front) is Ok {
            let next = ensure_slots(shot, front)->Ok_0.0;
            lemma_slot(next, before, last);
            let all = before + seq![last];
            assert(read_from(all, before.len() as int) == slot_is_read(all, before.len() as int));
        }
    }
}

proof fn lemma_bodies_read(shot: Shot, node: u32, list: Seq<RawSubgraph>)
    ensures
        capture_bodies(shot, node, list) is Ok <==> forall|x: int|
            0 <= x < list.len() ==> (#[trigger] list[x]).attribute@.len() > 0 && list[x].graph
                is Some && captured(*list[x].graph->0) is Ok,
        capture_bodies(shot, node, list) matches Ok(next) ==> next.values == shot.values,
    decreases list.len(),
{
    if list.len() > 0 {
        let front = list.drop_last();
        lemma_bodies_read(shot, node, front);
        assert forall|x: int| 0 <= x < front.len() implies #[trigger] front[x] == list[x] by {}
        let last = list[list.len() - 1];
        assert(last == list.last());
        if capture_bodies(shot, node, list) is Ok {
            assert forall|x: int| 0 <= x < list.len() implies (
            #[trigger] list[x]).attribute@.len() > 0 && list[x].graph is Some && captured(
                *list[x].graph->0,
            ) is Ok by {
                if x < front.len() {
                    assert(front[x] == list[x]);
                }
            }
        }
        if forall|x: int|
            0 <= x < list.len() ==> (#[trigger] list[x]).attribute@.len() > 0 && list[x].graph
                is Some && captured(*list[x].graph->0) is Ok {
            assert(capture_bodies(shot, node, front) is Ok);
        }
    }
}

proof fn lemma_node_read(shot: Shot, seen: Seq<Option<RawValueInfo>>, node: RawNode)
    requires
        knows(shot.values, seen),
    ensures
        ({
            let slots = node.inputs->Ok_0@ + node.outputs->Ok_0@;
            &&& capture_one(shot, node) is Ok <==> node_is_read(Some(node)) && read_from(
                seen + slots,
                seen.len() as int,
            )
            &&& capture_one(shot, node) matches Ok(next) ==> knows(next.values, seen + slots)
        }),
{
    if node.inputs is Ok && node.outputs is Ok {
        let ins = node.inputs->Ok_0@;
        let outs = node.outputs->Ok_0@;
        lemma_slots(shot, seen, ins);
        assert((seen + ins) + outs =~= seen + (ins + outs));
        lemma_read_more(seen + ins, outs, seen.len() as int);
        if ensure_part(shot, node.inputs) is Ok {
            let (first, input_slots) = ensure_part(shot, node.inputs)->Ok_0;
            lemma_slots(first, seen + ins, outs);
            if ensure_part(first, node.outputs) is Ok {
                let (second, output_slots) = ensure_part(first, node.outputs)->Ok_0;
                if node_of(node, input_slots, output_slots) is Ok && node.subgraphs is Ok {
                    let record = node_of(node, input_slots, output_slots)->Ok_0;
                    lemma_bodies_read(
                        shot_with_node(second, record),
                        second.nodes.len() as u32,
                        node.subgraphs->Ok_0@,
                    );
                }
            }
        }
    }
}

proof fn lemma_nodes_read(
    shot: Shot,
    seen: Seq<Option<RawValueInfo>>,
    nodes: Seq<Option<RawNode>>,
)
    requires
        knows(shot.values, seen),
    ensures
        capture_all(shot, nodes) is Ok <==> {
            &&& forall|n: int| 0 <= n < nodes.len() ==> node_is_read(#[trigger] nodes[n])
            &&& read_from(seen + node_slots(nodes), seen.len() as int)
        },
        capture_all(shot, nodes) matches Ok(next) ==> knows(
            next.values,
            seen + node_slots(nodes),
        ),
    decreases nodes.len(),
{
    if nodes.len() == 0 {
        assert(seen + node_slots(nodes) =~= seen);
    } else {
        let front = nodes.drop_last();
        let last = nodes.last();
        lemma_nodes_read(shot, seen, front);
        assert forall|n: int| 0 <= n < front.len() implies #[trigger] front[n] == nodes[n] by {}
        assert(nodes[nodes.len() - 1] == last);
        let before = seen + node_slots(front);
        let slots = last->0.inputs->Ok_0@ + last->0.outputs->Ok_0@;
        assert(seen + node_slots(nodes) =~= before + slots);
        lemma_read_more(before, slots, seen.len() as int);
        let whole = forall|n: int| 0 <= n < nodes.len() ==> node_is_read(#[trigger] nodes[n]);
        let front_whole = forall|n: int| 0 <= n < front.len() ==> node_is_read(#[trigger] front[n]);
        assert(whole == (front_whole && node_is_read(last))) by {
            if whole {
                assert forall|n: int| 0 <= n < front.len() implies node_is_read(
                    #[trigger] front[n],
                ) by {
                    assert(node_is_read(nodes[n]));
                }
                assert(node_is_read(nodes[nodes.len() - 1]));
            }
            if front_whole && node_is_read(last) {
                assert forall|n: int| 0 <= n < nodes.len() implies node_is_read(
                    #[trigger] nodes[n],
                ) by {
                    if n < front.len() {
                        assert(node_is_read(front[n]));
                    }
                }
            }
        }
        if capture_all(shot, front) is Ok && last is Some {
            lemma_node_read(capture_all(shot, front)->Ok_0, before, last->0);
            assert(last == Some(last->0));
        }
    }
}

/// A graph is captured exactly if its version, its operator sets, its lists of slots and its nodes
/// can be read; every version of an operator set is positive, and no domain has two; the name of
/// every slot that is there can be read, and its type where the slot is the first of its name and
/// the name is not empty; all of every node can be read, and the graphs of its bodies are captured.
pub proof fn law_captured_graphs(raw: RawGraph)
    ensures
        captured(raw) is Ok <==> {
            &&& raw.ir_version is Ok
            &&& raw.opsets is Ok
            &&& forall|j: int|
                0 <= j < raw.opsets->Ok_0@.len() ==> (#[trigger] raw.opsets->Ok_0@[j]).1 > 0
            &&& forall|domain: Seq<char>, a: int, b: int, i: int, j: int| #[trigger]
                declares(raw.opsets->Ok_0@, domain, a, i) && #[trigger] declares(
                    raw.opsets->Ok_0@,
                    domain,
                    b,
                    j,
                ) ==> a == b
            &&& raw.inputs is Ok
            &&& raw.outputs is Ok
            &&& raw.initializers is Ok
            &&& raw.nodes is Ok
            &&& forall|n: int|
                0 <= n < raw.nodes->Ok_0@.len() ==> node_is_read(#[trigger] raw.nodes->Ok_0@[n])
            &&& forall|i: int|
                0 <= i < graph_slots(raw).len() ==> #[trigger] slot_is_read(graph_slots(raw), i)
        },
{
    lemma_opsets(raw.opsets->Ok_0@);
    if capture_versions(raw) is Ok && raw.inputs is Ok && raw.outputs is Ok && raw.initializers
        is Ok && raw.nodes is Ok {
        let start = capture_versions(raw)->Ok_0;
        let none = Seq::<Option<RawValueInfo>>::empty();
        let ins = raw.inputs->Ok_0@;
        let outs = raw.outputs->Ok_0@;
        let inits = raw.initializers->Ok_0@;
        let rest = node_slots(raw.nodes->Ok_0@);
        assert(start.values.len() == 0);
        assert(knows(start.values, none));
        lemma_slots(start, none, ins);
        assert(none + ins =~= ins);
        lemma_read_more(ins, outs, 0);
        lemma_read_more(ins + outs, inits, 0);
        lemma_read_more(ins + outs + inits, rest, 0);
        assert(graph_slots(raw) == ins + outs + inits + rest);
        if ensure_part(start, raw.inputs) is Ok {
            let (first, inputs) = ensure_part(start, raw.inputs)->Ok_0;
            let second_start = with_inputs(first, inputs);
            lemma_slots(second_start, ins, outs);
            if ensure_part(second_start, raw.outputs) is Ok {
                let (second, outputs) = ensure_part(second_start, raw.outputs)->Ok_0;
                let third_start = with_outputs(second, outputs);
                lemma_slots(third_start, ins + outs, inits);
                if capture_boundary(start, raw) is Ok {
                    let boundary = capture_boundary(start, raw)->Ok_0;
                    lemma_nodes_read(boundary, ins + outs + inits, raw.nodes->Ok_0@);
                }
            }
        }
        assert(read_from(graph_slots(raw), 0) == forall|i: int|
            0 <= i < graph_slots(raw).len() ==> #[trigger] slot_is_read(graph_slots(raw), i));
    }
}

} // verus!
