//! What the snapshot of a graph holds, told by what was read over the ABI.

use vstd::prelude::*;

use crate::ir::{normal_domain, IrDim, IrState};
use crate::ort_graph::{
    capture_all, capture_bodies, capture_boundary, capture_one, capture_versions, captured,
    ensure_part, ensure_slot, ensure_slots, import_opsets, metadata_of, node_of, with_inputs,
    with_outputs,
};
use crate::raw_graph::{
    fits, RawGraph, RawNode, RawSubgraph, RawTensor, RawType, RawValueInfo,
};
use crate::snapshot::{
    lower_dims, present, shot_with_node, shot_with_subgraph, shot_with_value, value_named, DimShot,
    NodeShot, Shot, ValueShot, ValueTypeKind,
};
use crate::snapshot_laws::{law_capture_mirrors, mirrors};
use crate::text::decimal;

verus! {

/// The slot names a value: it is there, and its name can be read and is not empty.
pub open spec fn names(slot: Option<RawValueInfo>, name: Seq<char>) -> bool {
    slot is Some && slot->0.name is Ok && slot->0.name->Ok_0@ == name && name.len() > 0
}

/// The id stands for what the slot names: none for a missing slot or an empty name.
pub open spec fn slot_told(
    values: Seq<ValueShot>,
    slot: Option<RawValueInfo>,
    id: Option<u32>,
) -> bool {
    match id {
        None => slot is None || (slot->0.name is Ok && slot->0.name->Ok_0@.len() == 0),
        Some(v) => v < values.len() && names(slot, values[v as int].name),
    }
}

/// The ids stand for what the slots name, place by place.
pub open spec fn slots_told(
    values: Seq<ValueShot>,
    slots: Seq<Option<RawValueInfo>>,
    ids: Seq<Option<u32>>,
) -> bool {
    &&& ids.len() == slots.len()
    &&& forall|i: int| 0 <= i < slots.len() ==> slot_told(values, slots[i], #[trigger] ids[i])
}

/// The dimension as it is recorded: a size that is not negative, or else the dimension's own name,
/// or else a name made from the value's name and the place.
pub open spec fn dim_told(tensor: RawTensor, name: Seq<char>, i: int, dim: DimShot) -> bool {
    match dim {
        DimShot::Static(size) => tensor.dims@[i] >= 0 && size == tensor.dims@[i] as usize,
        DimShot::Symbolic(symbol) => {
            let own = i < tensor.symbols@.len() && tensor.symbols@[i]@.len() > 0;
            &&& tensor.dims@[i] < 0
            &&& own ==> symbol == tensor.symbols@[i]@
            &&& !own ==> symbol == "__ort_unknown_"@ + name + "_"@ + decimal(i as nat)
        },
    }
}

/// The value is recorded as its type was read.
pub open spec fn value_told(info: RawValueInfo, value: ValueShot) -> bool {
    match info.ty {
        RawType::Unreadable => value.kind == ValueTypeKind::Unknown && value.tensor is None,
        RawType::Other(code) => {
            &&& value.tensor is None
            &&& code == 2 ==> value.kind == ValueTypeKind::Sequence
            &&& code == 6 ==> value.kind == ValueTypeKind::Optional
            &&& code != 2 && code != 6 ==> value.kind == ValueTypeKind::Other
        },
        RawType::Tensor(Err(_)) => false,
        RawType::Tensor(Ok(tensor)) => {
            &&& value.kind == ValueTypeKind::Tensor
            &&& value.tensor is Some
            &&& value.tensor->0.dtype == (if 1 <= tensor.dtype <= 26 {
                Some(tensor.dtype as i32)
            } else {
                None
            })
            &&& value.tensor->0.shape is Some
            &&& value.tensor->0.shape->0.len() == tensor.dims@.len()
            &&& forall|i: int|
                0 <= i < tensor.dims@.len() ==> dim_told(
                    tensor,
                    value.name,
                    i,
                    #[trigger] value.tensor->0.shape->0[i],
                )
        },
    }
}

/// The slot at place `i` is the first that names the value, and tells what is recorded of it.
pub open spec fn introduces(
    slots: Seq<Option<RawValueInfo>>,
    value: ValueShot,
    i: int,
) -> bool {
    &&& 0 <= i < slots.len()
    &&& names(slots[i], value.name)
    &&& value_told(slots[i]->0, value)
    &&& forall|j: int| 0 <= j < i ==> !names(#[trigger] slots[j], value.name)
}

/// Every value is introduced by the first slot that names it.
pub open spec fn values_told(values: Seq<ValueShot>, slots: Seq<Option<RawValueInfo>>) -> bool {
    forall|v: int| 0 <= v < values.len() ==> introduced(slots, #[trigger] values[v])
}

/// Some slot introduces the value.
pub open spec fn introduced(slots: Seq<Option<RawValueInfo>>, value: ValueShot) -> bool {
    exists|i: int| #[trigger] introduces(slots, value, i)
}

/// What the IR knows of the types of values: the element type and the sizes that are recorded,
/// symbols by their numbers, and which of them are not known.
pub open spec fn types_told(shot: Shot) -> bool {
    &&& forall|v: int|
        0 <= v < shot.values.len() ==> type_told(shot.ir, #[trigger] shot.values[v], v)
    &&& forall|v: u32| #[trigger] shot.ir.untyped.contains(v) ==> v < shot.values.len()
    &&& forall|v: u32| #[trigger] shot.ir.unshaped.contains(v) ==> v < shot.values.len()
}

pub open spec fn type_told(ir: IrState, value: ValueShot, v: int) -> bool {
    let typed = value.tensor is Some && value.tensor->0.dtype is Some;
    let shaped = value.tensor is Some && value.tensor->0.shape is Some;
    &&& ir.untyped.contains(v as u32) == !typed
    &&& ir.unshaped.contains(v as u32) == !shaped
    &&& typed ==> ir.values[v].dtype == value.tensor->0.dtype->0
    &&& shaped ==> {
        let dims = value.tensor->0.shape->0;
        &&& ir.values[v].shape.len() == dims.len()
        &&& forall|i: int|
            0 <= i < dims.len() ==> match dims[i] {
                DimShot::Static(size) => #[trigger] ir.values[v].shape[i] == IrDim::Static(size),
                DimShot::Symbolic(name) => ir.symbols.contains_key(name) && ir.values[v].shape[i]
                    == IrDim::Symbolic(ir.symbols[name]),
            }
    }
}

/// Every symbol that was known is known by the same number.
pub open spec fn symbols_kept(a: IrState, b: IrState) -> bool {
    forall|name: Seq<char>| #[trigger]
        a.symbols.contains_key(name) ==> b.symbols.contains_key(name) && b.symbols[name]
            == a.symbols[name]
}

proof fn lemma_metadata(info: RawValueInfo, name: Seq<char>)
    ensures
        metadata_of(info.ty, name) matches Ok(value) ==> value.name == name && value_told(
            info,
            value,
        ),
        metadata_of(info.ty, name) is Err <==> info.ty is Tensor && info.ty->Tensor_0 is Err,
{
}

proof fn lemma_lowered(ir: IrState, dims: Seq<DimShot>)
    ensures
        ({
            let (state, ids) = lower_dims(ir, dims);
            &&& state == (IrState {
                symbols: state.symbols,
                next_symbol: state.next_symbol,
                ..ir
            })
            &&& symbols_kept(ir, state)
            &&& ids.len() == dims.len()
            &&& forall|i: int|
                0 <= i < dims.len() ==> match dims[i] {
                    DimShot::Static(size) => #[trigger] ids[i] == IrDim::Static(size),
                    DimShot::Symbolic(name) => state.symbols.contains_key(name) && ids[i]
                        == IrDim::Symbolic(state.symbols[name]),
                }
        }),
    decreases dims.len(),
{
    if dims.len() > 0 {
        let front = dims.drop_last();
        lemma_lowered(ir, front);
        let (before, some) = lower_dims(ir, front);
        let (state, ids) = lower_dims(ir, dims);
        assert(symbols_kept(before, state));
        assert forall|i: int| 0 <= i < dims.len() implies match dims[i] {
            DimShot::Static(size) => #[trigger] ids[i] == IrDim::Static(size),
            DimShot::Symbolic(name) => state.symbols.contains_key(name) && ids[i]
                == IrDim::Symbolic(state.symbols[name]),
        } by {
            if i < front.len() {
                assert(front[i] == dims[i]);
                assert(ids[i] == some[i]);
            }
        }
    }
}

/// What a step of the capture keeps: only values are added, and their types are told.
spec fn grows(a: Shot, b: Shot) -> bool {
    &&& a.values.len() <= b.values.len()
    &&& forall|v: int| 0 <= v < a.values.len() ==> #[trigger] b.values[v] == a.values[v]
    &&& types_told(a) && b.values.len() <= u32::MAX && a.ir.values.len() == a.values.len()
        ==> types_told(b) && b.ir.values.len() == b.values.len()
    &&& b.ir.opsets == a.ir.opsets
    &&& b == (Shot { ir: b.ir, values: b.values, ..a })
}

proof fn lemma_declared(shot: Shot, value: ValueShot)
    requires
        types_told(shot),
        shot.ir.values.len() == shot.values.len() < u32::MAX,
    ensures
        types_told(shot_with_value(shot, value)),
{
    let next = shot_with_value(shot, value);
    let dims = match crate::snapshot::value_shape(value) {
        Some(dims) => dims,
        None => Seq::empty(),
    };
    lemma_lowered(shot.ir, dims);
    let (state, ids) = lower_dims(shot.ir, dims);
    assert forall|v: int| 0 <= v < next.values.len() implies type_told(
        next.ir,
        #[trigger] next.values[v],
        v,
    ) by {
        if v < shot.values.len() {
            assert(type_told(shot.ir, shot.values[v], v));
            assert(next.ir.values[v] == shot.ir.values[v]);
        }
    }
}

proof fn lemma_slot(shot: Shot, told: Seq<Option<RawValueInfo>>, slot: Option<RawValueInfo>)
    requires
        values_told(shot.values, told),
        forall|i: int, name: Seq<char>|
            0 <= i < told.len() && #[trigger] names(told[i], name) ==> value_named(
                shot.values,
                name,
            ) is Some,
    ensures
        ensure_slot(shot, slot) is Err <==> slot is Some && (slot->0.name is Err || (
        slot->0.name->Ok_0@.len() > 0 && value_named(shot.values, slot->0.name->Ok_0@) is None
            && slot->0.ty is Tensor && slot->0.ty->Tensor_0 is Err)),
        ensure_slot(shot, slot) matches Ok((next, id)) ==> next.values.len() <= u32::MAX ==> {
            &&& grows(shot, next)
            &&& slot_told(next.values, slot, id)
            &&& values_told(next.values, told.push(slot))
            &&& forall|i: int, name: Seq<char>|
                0 <= i < told.push(slot).len() && #[trigger] names(told.push(slot)[i], name)
                    ==> value_named(next.values, name) is Some
        },
{
    let more = told.push(slot);
    if slot is Some && slot->0.name is Ok && slot->0.name->Ok_0@.len() > 0 {
        let name = slot->0.name->Ok_0@;
        lemma_metadata(slot->0, name);
    }
    if ensure_slot(shot, slot) is Ok {
        let (next, id) = ensure_slot(shot, slot)->Ok_0;
        if next.values.len() <= u32::MAX {
            if next.values.len() > shot.values.len() {
                let name = slot->0.name->Ok_0@;
                let value = next.values[shot.values.len() as int];
                if types_told(shot) && shot.ir.values.len() == shot.values.len() {
                    lemma_declared(shot, value);
                }
                let dims = match crate::snapshot::value_shape(value) {
                    Some(dims) => dims,
                    None => Seq::empty(),
                };
                lemma_lowered(shot.ir, dims);
                assert forall|j: int| 0 <= j < told.len() implies !names(#[trigger] more[j], name) by {
                    assert(more[j] == told[j]);
                    if names(told[j], name) {
                        assert(value_named(shot.values, name) is Some);
                    }
                }
                assert(introduces(more, value, told.len() as int));
            }
            assert forall|v: int| 0 <= v < next.values.len() implies introduced(
                more,
                #[trigger] next.values[v],
            ) by {
                if v < shot.values.len() {
                    assert(next.values[v] == shot.values[v]);
                    assert(introduced(told, shot.values[v]));
                    let i = choose|i: int| introduces(told, shot.values[v], i);
                    assert(more[i] == told[i]);
                    assert forall|j: int| 0 <= j < i implies !names(
                        #[trigger] more[j],
                        shot.values[v].name,
                    ) by {
                        assert(more[j] == told[j]);
                    }
                    assert(introduces(more, next.values[v], i));
                } else {
                    assert(introduces(more, next.values[v], told.len() as int));
                }
            }
            assert forall|i: int, name: Seq<char>|
                0 <= i < more.len() && #[trigger] names(more[i], name) implies value_named(
                next.values,
                name,
            ) is Some by {
                if i < told.len() {
                    assert(more[i] == told[i]);
                    assert(names(told[i], name));
                    let w = choose|w: int|
                        0 <= w < shot.values.len() && (#[trigger] shot.values[w]).name == name;
                    assert(next.values[w].name == name);
                } else if next.values.len() > shot.values.len() {
                    assert(next.values[shot.values.len() as int].name == name);
                }
            }
        }
    }
}

/// The slots that were read so far told all values, and every name among them has its value.
spec fn all_told(values: Seq<ValueShot>, told: Seq<Option<RawValueInfo>>) -> bool {
    &&& values_told(values, told)
    &&& forall|i: int, name: Seq<char>|
        0 <= i < told.len() && #[trigger] names(told[i], name) ==> value_named(values, name) is Some
}

proof fn lemma_grows_on(a: Shot, b: Shot, c: Shot)
    requires
        grows(a, b),
        grows(b, c),
    ensures
        grows(a, c),
{
    assert forall|v: int| 0 <= v < a.values.len() implies #[trigger] c.values[v] == a.values[v] by {
        assert(b.values[v] == a.values[v]);
    }
}

proof fn lemma_told_later(
    a: Seq<ValueShot>,
    b: Seq<ValueShot>,
    slots: Seq<Option<RawValueInfo>>,
    ids: Seq<Option<u32>>,
)
    requires
        slots_told(a, slots, ids),
        a.len() <= b.len(),
        forall|v: int| 0 <= v < a.len() ==> #[trigger] b[v] == a[v],
    ensures
        slots_told(b, slots, ids),
{
    assert forall|i: int| 0 <= i < slots.len() implies slot_told(b, slots[i], #[trigger] ids[i]) by {
        assert(slot_told(a, slots[i], ids[i]));
        if ids[i] is Some {
            assert(b[ids[i]->0 as int] == a[ids[i]->0 as int]);
        }
    }
}

proof fn lemma_slots(
    shot: Shot,
    told: Seq<Option<RawValueInfo>>,
    slots: Seq<Option<RawValueInfo>>,
)
    requires
        all_told(shot.values, told),
    ensures
        ensure_slots(shot, slots) matches Ok((next, ids)) ==> next.values.len() <= u32::MAX ==> {
            &&& grows(shot, next)
            &&& slots_told(next.values, slots, ids)
            &&& all_told(next.values, told + slots)
        },
    decreases slots.len(),
{
    if slots.len() == 0 {
        assert(told + slots =~= told);
    } else if ensure_slots(shot, slots) is Ok {
        let front = slots.drop_last();
        lemma_slots(shot, told, front);
        let (before, some) = ensure_slots(shot, front)->Ok_0;
        let (next, ids) = ensure_slots(shot, slots)->Ok_0;
        assert(before.values.len() <= next.values.len());
        if next.values.len() <= u32::MAX {
            lemma_slot(before, told + front, slots.last());
            assert((told + front).push(slots.last()) =~= told + slots);
            lemma_grows_on(shot, before, next);
            lemma_told_later(before.values, next.values, front, some);
            assert forall|i: int| 0 <= i < slots.len() implies slot_told(
                next.values,
                slots[i],
                #[trigger] ids[i],
            ) by {
                if i < front.len() {
                    assert(ids[i] == some[i]);
                    assert(front[i] == slots[i]);
                    assert(slot_told(next.values, front[i], some[i]));
                }
            }
        }
    }
}

/// The node is recorded as it was read.
pub open spec fn node_told(values: Seq<ValueShot>, node: RawNode, record: NodeShot) -> bool {
    &&& node.id is Ok && record.ort_node_id == node.id->Ok_0
    &&& node.name is Ok && record.name == node.name->Ok_0@
    &&& node.domain is Ok
    &&& record.domain == (if node.domain->Ok_0@ == "ai.onnx"@ {
        ""@
    } else {
        node.domain->Ok_0@
    })
    &&& node.op_type is Ok && record.op_type == node.op_type->Ok_0@
    &&& node.since_version is Ok && record.since_version == node.since_version->Ok_0
    &&& node.inputs is Ok && slots_told(values, node.inputs->Ok_0@, record.input_slots)
    &&& node.outputs is Ok && slots_told(values, node.outputs->Ok_0@, record.output_slots)
}

/// The nodes are recorded one by one, in reading order.
pub open spec fn nodes_told(shot: Shot, nodes: Seq<Option<RawNode>>) -> bool {
    &&& shot.nodes.len() == nodes.len()
    &&& forall|n: int|
        0 <= n < nodes.len() ==> (#[trigger] nodes[n]) is Some && node_told(
            shot.values,
            nodes[n]->0,
            shot.nodes[n],
        )
}

/// A node is found by its number: the last one of that number.
pub open spec fn ids_told(shot: Shot) -> bool {
    &&& forall|id: usize| #[trigger]
        shot.node_by_ort_id.contains_key(id) ==> {
            let n = shot.node_by_ort_id[id] as int;
            &&& n < shot.nodes.len()
            &&& shot.nodes[n].ort_node_id == id
            &&& forall|m: int|
                n < m < shot.nodes.len() ==> (#[trigger] shot.nodes[m]).ort_node_id != id
        }
    &&& forall|n: int|
        0 <= n < shot.nodes.len() ==> shot.node_by_ort_id.contains_key(
            (#[trigger] shot.nodes[n]).ort_node_id,
        )
}

/// The versions of a domain are those of its nodes.
pub open spec fn versions_told(shot: Shot) -> bool {
    &&& forall|n: int|
        0 <= n < shot.nodes.len() ==> shot.versions.contains_key((#[trigger] shot.nodes[n]).domain)
            && shot.versions[shot.nodes[n].domain].contains(shot.nodes[n].since_version)
    &&& forall|domain: Seq<char>, version: i32|
        shot.versions.contains_key(domain) && #[trigger] shot.versions[domain].contains(version)
            ==> exists|n: int|
            0 <= n < shot.nodes.len() && (#[trigger] shot.nodes[n]).domain == domain
                && shot.nodes[n].since_version == version
}

/// The node has a body under that attribute at place `x`, and none after it.
pub open spec fn last_body(
    list: Seq<RawSubgraph>,
    attribute: Seq<char>,
    x: int,
) -> bool {
    &&& 0 <= x < list.len()
    &&& list[x].attribute@ == attribute
    &&& forall|y: int| x < y < list.len() ==> (#[trigger] list[y]).attribute@ != attribute
}

/// The bodies of the nodes are the snapshots of the graphs that were read for them; of two under
/// one attribute the later counts.
pub open spec fn bodies_told(shot: Shot, nodes: Seq<Option<RawNode>>) -> bool {
    &&& forall|n: u32, attribute: Seq<char>, x: int|
        #![trigger last_body(nodes[n as int]->0.subgraphs->Ok_0@, attribute, x)]
        n < nodes.len() && last_body(nodes[n as int]->0.subgraphs->Ok_0@, attribute, x) ==> {
            let body = nodes[n as int]->0.subgraphs->Ok_0@[x];
            &&& attribute.len() > 0
            &&& body.graph is Some
            &&& shot.subgraphs.contains_key((n, attribute))
            &&& captured(*body.graph->0) == Ok::<Shot, Seq<char>>(
                shot.subgraphs[(n, attribute)],
            )
        }
    &&& forall|n: u32, attribute: Seq<char>| #[trigger]
        shot.subgraphs.contains_key((n, attribute)) ==> n < nodes.len() && exists|x: int|
            #[trigger] last_body(nodes[n as int]->0.subgraphs->Ok_0@, attribute, x)
}

/// The slots of nodes in reading order.
pub open spec fn node_slots(nodes: Seq<Option<RawNode>>) -> Seq<Option<RawValueInfo>>
    decreases nodes.len(),
{
    if nodes.len() == 0 {
        Seq::empty()
    } else {
        let node = nodes.last()->0;
        node_slots(nodes.drop_last()) + node.inputs->Ok_0@ + node.outputs->Ok_0@
    }
}

proof fn lemma_bodies(shot: Shot, node: u32, list: Seq<RawSubgraph>)
    ensures
        capture_bodies(shot, node, list) matches Ok(next) ==> {
            &&& next == (Shot { ir: next.ir, subgraphs: next.subgraphs, ..shot })
            &&& next.ir == (IrState { subgraphs: next.ir.subgraphs, ..shot.ir })
            &&& forall|x: int| 0 <= x < list.len() ==> (#[trigger] list[x]).graph is Some
            &&& forall|attribute: Seq<char>, x: int| #[trigger]
                last_body(list, attribute, x) ==> attribute.len() > 0 && list[x].graph is Some
                    && next.subgraphs.contains_key((node, attribute)) && captured(
                    *list[x].graph->0,
                ) == Ok::<Shot, Seq<char>>(next.subgraphs[(node, attribute)])
            &&& forall|n: u32, attribute: Seq<char>|
                n != node ==> #[trigger] next.subgraphs.contains_key((n, attribute))
                    == shot.subgraphs.contains_key((n, attribute)) && next.subgraphs[(n, attribute)]
                    == shot.subgraphs[(n, attribute)]
            &&& forall|attribute: Seq<char>|
                #![trigger next.subgraphs.contains_key((node, attribute))]
                next.subgraphs.contains_key((node, attribute)) && !shot.subgraphs.contains_key(
                    (node, attribute),
                ) ==> exists|x: int| #[trigger] last_body(list, attribute, x)
        },
    decreases list.len(),
{
    if list.len() > 0 && capture_bodies(shot, node, list) is Ok {
        let front = list.drop_last();
        let at = list.len() - 1;
        lemma_bodies(shot, node, front);
        let before = capture_bodies(shot, node, front)->Ok_0;
        let next = capture_bodies(shot, node, list)->Ok_0;
        let own = list[at].attribute@;
        assert(list.last() == list[at]);
        assert(captured(*list[at].graph->0) is Ok);
        assert(next == shot_with_subgraph(before, node, own, captured(*list[at].graph->0)->Ok_0));
        assert forall|x: int| 0 <= x < list.len() implies (#[trigger] list[x]).graph is Some by {
            if x < at {
                assert(front[x] == list[x]);
            }
        }
        assert(last_body(list, own, at));
        assert forall|attribute: Seq<char>, x: int| #[trigger]
            last_body(list, attribute, x) implies attribute.len() > 0 && list[x].graph is Some
            && next.subgraphs.contains_key((node, attribute)) && captured(*list[x].graph->0)
            == Ok::<Shot, Seq<char>>(next.subgraphs[(node, attribute)]) by {
            if x < at {
                assert(list[at].attribute@ != attribute);
                assert(front[x] == list[x]);
                assert forall|y: int| x < y < front.len() implies (#[trigger] front[y]).attribute@
                    != attribute by {
                    assert(list[y] == front[y]);
                }
                assert(last_body(front, attribute, x));
            }
        }
        assert forall|attribute: Seq<char>|
            #![trigger next.subgraphs.contains_key((node, attribute))]
            next.subgraphs.contains_key((node, attribute)) && !shot.subgraphs.contains_key(
                (node, attribute),
            ) implies exists|x: int| #[trigger] last_body(list, attribute, x) by {
            if attribute != own {
                assert(before.subgraphs.contains_key((node, attribute)));
                let x = choose|x: int| #[trigger] last_body(front, attribute, x);
                assert(front[x] == list[x]);
                assert forall|y: int| x < y < list.len() implies (#[trigger] list[y]).attribute@
                    != attribute by {
                    if y < at {
                        assert(front[y] == list[y]);
                    }
                }
                assert(last_body(list, attribute, x));
            }
        }
    }
}

/// What holds after every node that was read.
#[verifier::opaque]
spec fn holds_nodes(
    shot: Shot,
    told: Seq<Option<RawValueInfo>>,
    nodes: Seq<Option<RawNode>>,
) -> bool {
    &&& all_told(shot.values, told + node_slots(nodes))
    &&& types_told(shot)
    &&& shot.ir.values.len() == shot.values.len()
    &&& nodes_told(shot, nodes)
    &&& ids_told(shot)
    &&& versions_told(shot)
    &&& bodies_told(shot, nodes)
}

proof fn lemma_recorded(shot: Shot, record: NodeShot)
    requires
        ids_told(shot),
        versions_told(shot),
        types_told(shot),
        shot.ir.values.len() == shot.values.len(),
        shot.nodes.len() < u32::MAX,
    ensures
        ids_told(shot_with_node(shot, record)),
        versions_told(shot_with_node(shot, record)),
        types_told(shot_with_node(shot, record)),
{
    let next = shot_with_node(shot, record);
    let at = shot.nodes.len() as int;
    assert(next.nodes[at] == record);
    assert forall|n: int| 0 <= n < at implies #[trigger] next.nodes[n] == shot.nodes[n] by {}
    assert forall|id: usize| #[trigger] next.node_by_ort_id.contains_key(id) implies {
        let n = next.node_by_ort_id[id] as int;
        &&& n < next.nodes.len()
        &&& next.nodes[n].ort_node_id == id
        &&& forall|m: int| n < m < next.nodes.len() ==> (#[trigger] next.nodes[m]).ort_node_id != id
    } by {
        if id != record.ort_node_id {
            assert(shot.node_by_ort_id.contains_key(id));
            let n = shot.node_by_ort_id[id] as int;
            assert forall|m: int| n < m < next.nodes.len() implies (
            #[trigger] next.nodes[m]).ort_node_id != id by {
                if m < at {
                    assert(shot.nodes[m].ort_node_id != id);
                }
            }
        }
    }
    assert forall|n: int| 0 <= n < next.nodes.len() implies next.node_by_ort_id.contains_key(
        (#[trigger] next.nodes[n]).ort_node_id,
    ) by {
        if n < at {
            assert(shot.node_by_ort_id.contains_key(shot.nodes[n].ort_node_id));
        }
    }
    assert forall|n: int| 0 <= n < next.nodes.len() implies next.versions.contains_key(
        (#[trigger] next.nodes[n]).domain,
    ) && next.versions[next.nodes[n].domain].contains(next.nodes[n].since_version) by {
        if n < at {
            assert(shot.versions.contains_key(shot.nodes[n].domain));
        }
    }
    assert forall|domain: Seq<char>, version: i32|
        next.versions.contains_key(domain) && #[trigger] next.versions[domain].contains(
            version,
        ) implies exists|n: int|
        0 <= n < next.nodes.len() && (#[trigger] next.nodes[n]).domain == domain
            && next.nodes[n].since_version == version by {
        if domain == record.domain && version == record.since_version {
            assert(next.nodes[at].domain == domain);
        } else {
            assert(shot.versions.contains_key(domain) && shot.versions[domain].contains(version));
            let n = choose|n: int|
                0 <= n < shot.nodes.len() && (#[trigger] shot.nodes[n]).domain == domain
                    && shot.nodes[n].since_version == version;
            assert(next.nodes[n].domain == domain);
        }
    }
    assert forall|v: int| 0 <= v < next.values.len() implies type_told(
        next.ir,
        #[trigger] next.values[v],
        v,
    ) by {
        assert(type_told(shot.ir, shot.values[v], v));
        assert(next.ir.values[v].shape == shot.ir.values[v].shape);
    }
}

#[verifier::rlimit(60)]
#[verifier::spinoff_prover]
proof fn lemma_one(
    shot: Shot,
    told: Seq<Option<RawValueInfo>>,
    nodes: Seq<Option<RawNode>>,
    node: RawNode,
)
    requires
        holds_nodes(shot, told, nodes),
        capture_one(shot, node) is Ok,
        capture_one(shot, node)->Ok_0.values.len() <= u32::MAX,
        nodes.len() < u32::MAX,
    ensures
        holds_nodes(capture_one(shot, node)->Ok_0, told, nodes.push(Some(node))),
        keeps_rest(shot, capture_one(shot, node)->Ok_0),
{
    reveal(holds_nodes);
    let last = capture_one(shot, node)->Ok_0;
    let flat = told + node_slots(nodes);
    let (first, input_slots) = ensure_part(shot, node.inputs)->Ok_0;
    let (second, output_slots) = ensure_part(first, node.outputs)->Ok_0;
    let record = node_of(node, input_slots, output_slots)->Ok_0;
    let list = node.subgraphs->Ok_0@;
    let third = shot_with_node(second, record);
    let id = second.nodes.len() as u32;
    assert(capture_bodies(third, id, list) == Ok::<Shot, Seq<char>>(last));
    lemma_bodies(third, id, list);
    assert(last.values == second.values);
    lemma_node_slots(shot, flat, node);
    lemma_recorded(second, record);
    let more = nodes.push(Some(node));
    assert(more.drop_last() =~= nodes);
    assert(flat + node.inputs->Ok_0@ + node.outputs->Ok_0@ =~= told + node_slots(more));
    assert(node_told(last.values, node, record));
    lemma_nodes_later(shot, last, nodes, node);
    lemma_types_later(third, last);
    lemma_bodies_later(shot, third, last, nodes, node);
}

/// What nodes add leaves alone: the boundary, the versions of the graph, and earlier values.
spec fn keeps_rest(a: Shot, b: Shot) -> bool {
    &&& b.ir_version == a.ir_version
    &&& b.inputs == a.inputs
    &&& b.outputs == a.outputs
    &&& b.initializers == a.initializers
    &&& b.ir.opsets == a.ir.opsets
    &&& a.values.len() <= b.values.len()
    &&& forall|v: int| 0 <= v < a.values.len() ==> #[trigger] b.values[v] == a.values[v]
}

proof fn lemma_types_later(a: Shot, b: Shot)
    requires
        types_told(a),
        b.values == a.values,
        b.ir.values == a.ir.values,
        b.ir.symbols == a.ir.symbols,
        b.ir.untyped == a.ir.untyped,
        b.ir.unshaped == a.ir.unshaped,
    ensures
        types_told(b),
{
    assert forall|v: int| 0 <= v < b.values.len() implies type_told(
        b.ir,
        #[trigger] b.values[v],
        v,
    ) by {
        assert(type_told(a.ir, a.values[v], v));
    }
}

proof fn lemma_node_slots(shot: Shot, flat: Seq<Option<RawValueInfo>>, node: RawNode)
    requires
        all_told(shot.values, flat),
        ensure_part(shot, node.inputs) is Ok,
        ensure_part(ensure_part(shot, node.inputs)->Ok_0.0, node.outputs) is Ok,
        ensure_part(
            ensure_part(shot, node.inputs)->Ok_0.0,
            node.outputs,
        )->Ok_0.0.values.len() <= u32::MAX,
    ensures
        ({
            let (first, input_slots) = ensure_part(shot, node.inputs)->Ok_0;
            let (second, output_slots) = ensure_part(first, node.outputs)->Ok_0;
            &&& grows(shot, second)
            &&& slots_told(second.values, node.inputs->Ok_0@, input_slots)
            &&& slots_told(second.values, node.outputs->Ok_0@, output_slots)
            &&& all_told(second.values, flat + node.inputs->Ok_0@ + node.outputs->Ok_0@)
        }),
{
    let given = node.inputs->Ok_0@;
    let made = node.outputs->Ok_0@;
    let (first, input_slots) = ensure_part(shot, node.inputs)->Ok_0;
    let (second, output_slots) = ensure_part(first, node.outputs)->Ok_0;
    lemma_slots_monotone(first, made);
    lemma_slots(shot, flat, given);
    lemma_slots(first, flat + given, made);
    lemma_grows_on(shot, first, second);
    lemma_told_later(first.values, second.values, given, input_slots);
}

proof fn lemma_nodes_later(
    shot: Shot,
    last: Shot,
    nodes: Seq<Option<RawNode>>,
    node: RawNode,
)
    requires
        nodes_told(shot, nodes),
        last.nodes.len() == shot.nodes.len() + 1,
        forall|n: int| 0 <= n < shot.nodes.len() ==> #[trigger] last.nodes[n] == shot.nodes[n],
        node_told(last.values, node, last.nodes[shot.nodes.len() as int]),
        shot.values.len() <= last.values.len(),
        forall|v: int| 0 <= v < shot.values.len() ==> #[trigger] last.values[v] == shot.values[v],
    ensures
        nodes_told(last, nodes.push(Some(node))),
{
    let more = nodes.push(Some(node));
    assert forall|n: int| 0 <= n < more.len() implies (#[trigger] more[n]) is Some && node_told(
        last.values,
        more[n]->0,
        last.nodes[n],
    ) by {
        if n < nodes.len() {
            assert(nodes[n] is Some);
            assert(node_told(shot.values, nodes[n]->0, shot.nodes[n]));
            assert(last.nodes[n] == shot.nodes[n]);
            lemma_told_later(
                shot.values,
                last.values,
                nodes[n]->0.inputs->Ok_0@,
                shot.nodes[n].input_slots,
            );
            lemma_told_later(
                shot.values,
                last.values,
                nodes[n]->0.outputs->Ok_0@,
                shot.nodes[n].output_slots,
            );
        }
    }
}

proof fn lemma_bodies_later(
    shot: Shot,
    third: Shot,
    last: Shot,
    nodes: Seq<Option<RawNode>>,
    node: RawNode,
)
    requires
        bodies_told(shot, nodes),
        nodes.len() < u32::MAX,
        third.subgraphs == shot.subgraphs,
        node.subgraphs is Ok,
        capture_bodies(third, nodes.len() as u32, node.subgraphs->Ok_0@) == Ok::<Shot, Seq<char>>(
            last,
        ),
    ensures
        bodies_told(last, nodes.push(Some(node))),
{
    let id = nodes.len() as u32;
    let list = node.subgraphs->Ok_0@;
    let more = nodes.push(Some(node));
    lemma_bodies(third, id, list);
    assert forall|attribute: Seq<char>| !#[trigger] shot.subgraphs.contains_key((id, attribute)) by {
        if shot.subgraphs.contains_key((id, attribute)) {
            assert(id < nodes.len());
        }
    }
    assert forall|n: u32, attribute: Seq<char>, x: int|
        #![trigger last_body(more[n as int]->0.subgraphs->Ok_0@, attribute, x)]
        n < more.len() && last_body(more[n as int]->0.subgraphs->Ok_0@, attribute, x) implies {
        let body = more[n as int]->0.subgraphs->Ok_0@[x];
        &&& attribute.len() > 0
        &&& body.graph is Some
        &&& last.subgraphs.contains_key((n, attribute))
        &&& captured(*body.graph->0) == Ok::<Shot, Seq<char>>(last.subgraphs[(n, attribute)])
    } by {
        if n < nodes.len() {
            assert(more[n as int] == nodes[n as int]);
            assert(last_body(nodes[n as int]->0.subgraphs->Ok_0@, attribute, x));
            assert(shot.subgraphs.contains_key((n, attribute)));
            assert(last.subgraphs.contains_key((n, attribute)));
        } else {
            assert(n == id);
            assert(last_body(list, attribute, x));
        }
    }
    assert forall|n: u32, attribute: Seq<char>| #[trigger]
        last.subgraphs.contains_key((n, attribute)) implies n < more.len() && exists|x: int|
        #[trigger] last_body(more[n as int]->0.subgraphs->Ok_0@, attribute, x) by {
        if n != id {
            assert(shot.subgraphs.contains_key((n, attribute)));
            assert(more[n as int] == nodes[n as int]);
        }
    }
}

proof fn lemma_slots_monotone(shot: Shot, slots: Seq<Option<RawValueInfo>>)
    ensures
        ensure_slots(shot, slots) matches Ok((next, _)) ==> shot.values.len() <= next.values.len(),
    decreases slots.len(),
{
    if slots.len() > 0 {
        lemma_slots_monotone(shot, slots.drop_last());
    }
}

proof fn lemma_one_monotone(shot: Shot, node: RawNode)
    requires
        capture_one(shot, node) is Ok,
    ensures
        shot.values.len() <= capture_one(shot, node)->Ok_0.values.len(),
{
    let (first, input_slots) = ensure_part(shot, node.inputs)->Ok_0;
    let (second, output_slots) = ensure_part(first, node.outputs)->Ok_0;
    let record = node_of(node, input_slots, output_slots)->Ok_0;
    lemma_slots_monotone(shot, node.inputs->Ok_0@);
    lemma_slots_monotone(first, node.outputs->Ok_0@);
    lemma_bodies(
        shot_with_node(second, record),
        second.nodes.len() as u32,
        node.subgraphs->Ok_0@,
    );
}

proof fn lemma_all(
    shot: Shot,
    told: Seq<Option<RawValueInfo>>,
    nodes: Seq<Option<RawNode>>,
)
    requires
        holds_nodes(shot, told, Seq::empty()),
        capture_all(shot, nodes) is Ok,
        capture_all(shot, nodes)->Ok_0.values.len() <= u32::MAX,
        nodes.len() <= u32::MAX,
    ensures
        holds_nodes(capture_all(shot, nodes)->Ok_0, told, nodes),
        keeps_rest(shot, capture_all(shot, nodes)->Ok_0),
    decreases nodes.len(),
{
    if nodes.len() > 0 {
        let front = nodes.drop_last();
        let before = capture_all(shot, front)->Ok_0;
        assert(nodes.last() is Some);
        let node = nodes.last()->0;
        assert(capture_all(shot, nodes) == capture_one(before, node));
        lemma_one_monotone(before, node);
        lemma_all(shot, told, front);
        lemma_one(before, told, front, node);
        assert(front.push(Some(node)) =~= nodes);
        let next = capture_all(shot, nodes)->Ok_0;
        assert forall|v: int| 0 <= v < shot.values.len() implies #[trigger] next.values[v]
            == shot.values[v] by {
            assert(before.values[v] == shot.values[v]);
        }
    } else {
        assert(nodes =~= Seq::empty());
    }
}

/// The operator set at place `j` declares that version for that domain, in either spelling of the
/// default domain.
pub open spec fn declares(
    opsets: Seq<(String, i64)>,
    domain: Seq<char>,
    version: int,
    j: int,
) -> bool {
    &&& 0 <= j < opsets.len()
    &&& opsets[j].1 == version
    &&& domain == (if opsets[j].0@ == "ai.onnx"@ {
        ""@
    } else {
        opsets[j].0@
    })
}

pub proof fn lemma_opsets(opsets: Seq<(String, i64)>)
    ensures
        import_opsets(crate::ir::empty_state(), opsets) is Ok <==> {
            &&& forall|j: int| 0 <= j < opsets.len() ==> (#[trigger] opsets[j]).1 > 0
            &&& forall|domain: Seq<char>, a: int, b: int, i: int, j: int| #[trigger]
                declares(opsets, domain, a, i) && #[trigger] declares(opsets, domain, b, j) ==> a
                    == b
        },
        import_opsets(crate::ir::empty_state(), opsets) matches Ok(ir) ==> {
            &&& ir == (IrState { opsets: ir.opsets, ..crate::ir::empty_state() })
            &&& forall|domain: Seq<char>| #[trigger]
                ir.opsets.contains_key(domain) ==> exists|j: int| #[trigger]
                    declares(opsets, domain, ir.opsets[domain] as int, j)
            &&& forall|domain: Seq<char>, version: int, j: int| #[trigger]
                declares(opsets, domain, version, j) ==> ir.opsets.contains_key(domain)
                    && ir.opsets[domain] == version
        },
    decreases opsets.len(),
{
    if opsets.len() > 0 {
        let front = opsets.drop_last();
        let at = opsets.len() - 1;
        lemma_opsets(front);
        let start = crate::ir::empty_state();
        let own = normal_domain(opsets[at].0@);
        let version = opsets[at].1;
        assert(opsets.last() == opsets[at]);
        assert(declares(opsets, own, version as int, at));
        assert forall|domain: Seq<char>, a: int, j: int| j < at implies #[trigger] declares(
            opsets,
            domain,
            a,
            j,
        ) == declares(front, domain, a, j) by {}
        let before = import_opsets(start, front);
        if import_opsets(start, opsets) is Ok {
            let ir = import_opsets(start, opsets)->Ok_0;
            assert forall|j: int| 0 <= j < opsets.len() implies (#[trigger] opsets[j]).1 > 0 by {
                if j < at {
                    assert(front[j] == opsets[j]);
                }
            }
            assert forall|domain: Seq<char>, a: int, j: int| #[trigger]
                declares(opsets, domain, a, j) implies ir.opsets.contains_key(domain)
                && ir.opsets[domain] == a by {
                if j < at {
                    assert(declares(front, domain, a, j));
                }
            }
            assert forall|domain: Seq<char>| #[trigger]
                ir.opsets.contains_key(domain) implies exists|j: int| #[trigger]
                declares(opsets, domain, ir.opsets[domain] as int, j) by {
                if domain == own {
                    assert(declares(opsets, domain, ir.opsets[domain] as int, at));
                } else {
                    assert(before->Ok_0.opsets.contains_key(domain));
                    let j = choose|j: int| #[trigger]
                        declares(front, domain, before->Ok_0.opsets[domain] as int, j);
                    assert(declares(opsets, domain, ir.opsets[domain] as int, j));
                }
            }
        } else if before is Err {
            if exists|j: int| 0 <= j < front.len() && !((#[trigger] front[j]).1 > 0) {
                let j = choose|j: int| 0 <= j < front.len() && !((#[trigger] front[j]).1 > 0);
                assert(!(opsets[j].1 > 0));
            } else {
                let (domain, a, b, i, j) = choose|
                    domain: Seq<char>,
                    a: int,
                    b: int,
                    i: int,
                    j: int,
                | #[trigger]
                    declares(front, domain, a, i) && #[trigger] declares(front, domain, b, j) && a
                        != b;
                assert(declares(opsets, domain, a, i) && declares(opsets, domain, b, j));
            }
        } else if version > 0 {
            assert(before->Ok_0.opsets.contains_key(own));
            let j = choose|j: int| #[trigger]
                declares(front, own, before->Ok_0.opsets[own] as int, j);
            assert(declares(opsets, own, before->Ok_0.opsets[own] as int, j));
        }
    }
}

pub proof fn lemma_present(slots: Seq<Option<u32>>, v: u32)
    ensures
        present(slots).contains(v) <==> exists|i: int|
            0 <= i < slots.len() && #[trigger] slots[i] == Some(v),
    decreases slots.len(),
{
    if slots.len() > 0 {
        let front = slots.drop_last();
        lemma_present(front, v);
        let all = present(slots);
        let some = present(front);
        if all.contains(v) {
            let k = choose|k: int| 0 <= k < all.len() && all[k] == v;
            if slots.last() is Some && k == some.len() {
                assert(slots[slots.len() - 1] == Some(v));
            } else {
                assert(some[k] == v);
                let i = choose|i: int| 0 <= i < front.len() && #[trigger] front[i] == Some(v);
                assert(slots[i] == Some(v));
            }
        }
        if exists|i: int| 0 <= i < slots.len() && #[trigger] slots[i] == Some(v) {
            let i = choose|i: int| 0 <= i < slots.len() && #[trigger] slots[i] == Some(v);
            if i < front.len() {
                assert(front[i] == Some(v));
                let k = choose|k: int| 0 <= k < some.len() && some[k] == v;
                assert(all[k] == v);
            } else {
                assert(all[all.len() - 1] == v);
            }
        }
    }
}

/// All slots of a graph in reading order: those of its inputs, outputs and initializers, and of its
/// nodes, inputs before outputs.
pub open spec fn graph_slots(raw: RawGraph) -> Seq<Option<RawValueInfo>> {
    raw.inputs->Ok_0@ + raw.outputs->Ok_0@ + raw.initializers->Ok_0@ + node_slots(
        raw.nodes->Ok_0@,
    )
}

/// The snapshot of a graph tells what was read: its version; its operator sets, one version for
/// each domain; the values in the slots of its inputs and outputs, and which values are
/// initializers; its nodes, one by one; their numbers and versions; their bodies. Every value is
/// recorded as the first slot that names it tells, and the IR knows it by the same type.
pub proof fn law_graph_is_told(raw: RawGraph, shot: Shot)
    requires
        fits(raw),
        captured(raw) == Ok::<Shot, Seq<char>>(shot),
    ensures
        raw.ir_version is Ok && shot.ir_version == raw.ir_version->Ok_0,
        raw.opsets is Ok,
        forall|domain: Seq<char>| #[trigger]
            shot.ir.opsets.contains_key(domain) ==> exists|j: int| #[trigger]
                declares(raw.opsets->Ok_0@, domain, shot.ir.opsets[domain] as int, j),
        forall|domain: Seq<char>, version: int, j: int| #[trigger]
            declares(raw.opsets->Ok_0@, domain, version, j) ==> version > 0
                && shot.ir.opsets.contains_key(domain) && shot.ir.opsets[domain] == version,
        raw.inputs is Ok && slots_told(shot.values, raw.inputs->Ok_0@, shot.inputs),
        raw.outputs is Ok && slots_told(shot.values, raw.outputs->Ok_0@, shot.outputs),
        raw.initializers is Ok,
        forall|v: u32| #[trigger]
            shot.initializers.contains(v) ==> v < shot.values.len() && exists|i: int|
                0 <= i < raw.initializers->Ok_0@.len() && names(
                    #[trigger] raw.initializers->Ok_0@[i],
                    shot.values[v as int].name,
                ),
        forall|v: int, i: int|
            0 <= v < shot.values.len() && 0 <= i < raw.initializers->Ok_0@.len() && names(
                #[trigger] raw.initializers->Ok_0@[i],
                (#[trigger] shot.values[v]).name,
            ) ==> shot.initializers.contains(v as u32),
        raw.nodes is Ok && nodes_told(shot, raw.nodes->Ok_0@),
        values_told(shot.values, graph_slots(raw)),
        types_told(shot),
        ids_told(shot),
        versions_told(shot),
        bodies_told(shot, raw.nodes->Ok_0@),
{
    law_capture_mirrors(raw);
    assert(mirrors(shot));
    let opsets = raw.opsets->Ok_0@;
    lemma_opsets(opsets);
    let start = capture_versions(raw)->Ok_0;
    let given = raw.inputs->Ok_0@;
    let made = raw.outputs->Ok_0@;
    let fixed = raw.initializers->Ok_0@;
    let nodes = raw.nodes->Ok_0@;
    let (first, inputs) = ensure_part(start, raw.inputs)->Ok_0;
    let first_in = with_inputs(first, inputs);
    let (second, outputs) = ensure_part(first_in, raw.outputs)->Ok_0;
    let second_out = with_outputs(second, outputs);
    let (third, initializers) = ensure_part(second_out, raw.initializers)->Ok_0;
    let boundary = capture_boundary(start, raw)->Ok_0;
    assert(captured(raw) == capture_all(boundary, nodes));
    lemma_all_monotone(boundary, nodes);
    lemma_slots_monotone(start, given);
    lemma_slots_monotone(first_in, made);
    lemma_slots_monotone(second_out, fixed);
    let none = Seq::<Option<RawValueInfo>>::empty();
    assert(all_told(start.values, none));
    lemma_slots(start, none, given);
    assert(none + given =~= given);
    assert(types_told(first_in)) by {
        assert forall|v: int| 0 <= v < first_in.values.len() implies type_told(
            first_in.ir,
            #[trigger] first_in.values[v],
            v,
        ) by {
            assert(type_told(first.ir, first.values[v], v));
        }
    }
    lemma_slots(first_in, given, made);
    assert(types_told(second_out)) by {
        assert forall|v: int| 0 <= v < second_out.values.len() implies type_told(
            second_out.ir,
            #[trigger] second_out.values[v],
            v,
        ) by {
            assert(type_told(second.ir, second.values[v], v));
        }
    }
    lemma_slots(second_out, given + made, fixed);
    let told = given + made + fixed;
    let no_nodes = Seq::<Option<RawNode>>::empty();
    assert(told + node_slots(no_nodes) =~= told);
    assert(types_told(boundary)) by {
        assert forall|v: int| 0 <= v < boundary.values.len() implies type_told(
            boundary.ir,
            #[trigger] boundary.values[v],
            v,
        ) by {
            assert(type_told(third.ir, third.values[v], v));
        }
    }
    assert(holds_nodes(boundary, told, no_nodes)) by {
        reveal(holds_nodes);
    }
    lemma_all_count(boundary, nodes);
    lemma_all(boundary, told, nodes);
    reveal(holds_nodes);
    assert(shot.inputs == inputs);
    assert(shot.outputs == outputs);
    lemma_told_later(first.values, second.values, given, inputs);
    lemma_told_later(second.values, third.values, given, inputs);
    lemma_told_later(third.values, shot.values, given, inputs);
    lemma_told_later(second.values, third.values, made, outputs);
    lemma_told_later(third.values, shot.values, made, outputs);
    lemma_told_later(third.values, shot.values, fixed, initializers);
    assert(shot.initializers == present(initializers).to_set());
    assert forall|v: u32| #[trigger] shot.initializers.contains(v) implies v < shot.values.len()
        && exists|i: int|
        0 <= i < fixed.len() && names(#[trigger] fixed[i], shot.values[v as int].name) by {
        lemma_present(initializers, v);
        assert(present(initializers).contains(v));
        let i = choose|i: int|
            0 <= i < initializers.len() && #[trigger] initializers[i] == Some(v);
        assert(slot_told(shot.values, fixed[i], initializers[i]));
        assert(names(fixed[i], shot.values[v as int].name));
    }
    assert forall|v: int, i: int|
        0 <= v < shot.values.len() && 0 <= i < fixed.len() && names(
            #[trigger] fixed[i],
            (#[trigger] shot.values[v]).name,
        ) implies shot.initializers.contains(v as u32) by {
        assert(slot_told(shot.values, fixed[i], initializers[i]));
        assert(initializers[i] is Some);
        let w = initializers[i]->0;
        assert(shot.values[w as int].name == shot.values[v].name);
        if w < v {
            assert(shot.values[w as int].name != shot.values[v].name);
        }
        if v < w {
            assert(shot.values[v].name != shot.values[w as int].name);
        }
        lemma_present(initializers, v as u32);
        assert(initializers[i] == Some(v as u32));
        assert(present(initializers).contains(v as u32));
    }
}

proof fn lemma_all_monotone(shot: Shot, nodes: Seq<Option<RawNode>>)
    ensures
        capture_all(shot, nodes) matches Ok(next) ==> shot.values.len() <= next.values.len(),
    decreases nodes.len(),
{
    if nodes.len() > 0 && capture_all(shot, nodes) is Ok {
        let front = nodes.drop_last();
        lemma_all_monotone(shot, front);
        let before = capture_all(shot, front)->Ok_0;
        let node = nodes.last()->0;
        assert(capture_all(shot, nodes) == capture_one(before, node));
        lemma_one_monotone(before, node);
    }
}

proof fn lemma_all_count(shot: Shot, nodes: Seq<Option<RawNode>>)
    ensures
        capture_all(shot, nodes) matches Ok(next) ==> next.nodes.len() == shot.nodes.len()
            + nodes.len(),
    decreases nodes.len(),
{
    if nodes.len() > 0 && capture_all(shot, nodes) is Ok {
        let front = nodes.drop_last();
        lemma_all_count(shot, front);
        let before = capture_all(shot, front)->Ok_0;
        let node = nodes.last()->0;
        assert(capture_all(shot, nodes) == capture_one(before, node));
        let (first, input_slots) = ensure_part(before, node.inputs)->Ok_0;
        let (second, output_slots) = ensure_part(first, node.outputs)->Ok_0;
        let record = node_of(node, input_slots, output_slots)->Ok_0;
        lemma_slots_nodes(before, node.inputs->Ok_0@);
        lemma_slots_nodes(first, node.outputs->Ok_0@);
        lemma_bodies(
            shot_with_node(second, record),
            second.nodes.len() as u32,
            node.subgraphs->Ok_0@,
        );
    }
}

proof fn lemma_slots_nodes(shot: Shot, slots: Seq<Option<RawValueInfo>>)
    ensures
        ensure_slots(shot, slots) matches Ok((next, _)) ==> next.nodes == shot.nodes,
    decreases slots.len(),
{
    if slots.len() > 0 {
        lemma_slots_nodes(shot, slots.drop_last());
    }
}

/// The slot is missing, or its name and its type can be read.
pub open spec fn slot_readable(slot: Option<RawValueInfo>) -> bool {
    slot is Some ==> slot->0.name is Ok && !(slot->0.ty is Tensor && slot->0.ty->Tensor_0 is Err)
}

/// The list and its slots can be read.
pub open spec fn part_readable(part: Result<Vec<Option<RawValueInfo>>, String>) -> bool {
    part is Ok && forall|i: int|
        0 <= i < part->Ok_0@.len() ==> slot_readable(#[trigger] part->Ok_0@[i])
}

/// The node is there, all of it can be read, and each of its bodies has an attribute and a graph
/// that can be captured.
pub open spec fn node_readable(node: Option<RawNode>) -> bool {
    &&& node is Some
    &&& part_readable(node->0.inputs)
    &&& part_readable(node->0.outputs)
    &&& node->0.id is Ok
    &&& node->0.name is Ok
    &&& node->0.domain is Ok
    &&& node->0.op_type is Ok
    &&& node->0.since_version is Ok
    &&& node->0.subgraphs is Ok
    &&& forall|x: int|
        0 <= x < node->0.subgraphs->Ok_0@.len() ==> {
            let body = #[trigger] node->0.subgraphs->Ok_0@[x];
            body.attribute@.len() > 0 && body.graph is Some && captured(*body.graph->0) is Ok
        }
}

proof fn lemma_slots_readable(shot: Shot, slots: Seq<Option<RawValueInfo>>)
    requires
        forall|i: int| 0 <= i < slots.len() ==> slot_readable(#[trigger] slots[i]),
    ensures
        ensure_slots(shot, slots) is Ok,
    decreases slots.len(),
{
    if slots.len() > 0 {
        let front = slots.drop_last();
        assert forall|i: int| 0 <= i < front.len() implies slot_readable(#[trigger] front[i]) by {
            assert(front[i] == slots[i]);
        }
        lemma_slots_readable(shot, front);
        let last = slots[slots.len() - 1];
        assert(slot_readable(last));
    }
}

proof fn lemma_bodies_readable(shot: Shot, node: u32, list: Seq<RawSubgraph>)
    requires
        forall|x: int|
            0 <= x < list.len() ==> (#[trigger] list[x]).attribute@.len() > 0 && list[x].graph
                is Some && captured(*list[x].graph->0) is Ok,
    ensures
        capture_bodies(shot, node, list) is Ok,
    decreases list.len(),
{
    if list.len() > 0 {
        let front = list.drop_last();
        assert forall|x: int| 0 <= x < front.len() implies (#[trigger] front[x]).attribute@.len()
            > 0 && front[x].graph is Some && captured(*front[x].graph->0) is Ok by {
            assert(front[x] == list[x]);
        }
        lemma_bodies_readable(shot, node, front);
        let last = list[list.len() - 1];
        assert(captured(*last.graph->0) is Ok);
    }
}

proof fn lemma_nodes_readable(shot: Shot, nodes: Seq<Option<RawNode>>)
    requires
        forall|n: int| 0 <= n < nodes.len() ==> node_readable(#[trigger] nodes[n]),
    ensures
        capture_all(shot, nodes) is Ok,
    decreases nodes.len(),
{
    if nodes.len() > 0 {
        let front = nodes.drop_last();
        assert forall|n: int| 0 <= n < front.len() implies node_readable(#[trigger] front[n]) by {
            assert(front[n] == nodes[n]);
        }
        lemma_nodes_readable(shot, front);
        let before = capture_all(shot, front)->Ok_0;
        assert(node_readable(nodes[nodes.len() - 1]));
        let node = nodes.last()->0;
        lemma_slots_readable(before, node.inputs->Ok_0@);
        let (first, input_slots) = ensure_part(before, node.inputs)->Ok_0;
        lemma_slots_readable(first, node.outputs->Ok_0@);
        let (second, output_slots) = ensure_part(first, node.outputs)->Ok_0;
        let record = node_of(node, input_slots, output_slots)->Ok_0;
        let third = shot_with_node(second, record);
        lemma_bodies_readable(third, second.nodes.len() as u32, node.subgraphs->Ok_0@);
        assert(capture_one(before, node) is Ok);
    }
}

/// A graph all of which can be read, whose operator sets have positive versions and one for each
/// domain, is captured.
pub proof fn law_readable_graph_is_captured(raw: RawGraph)
    requires
        raw.ir_version is Ok,
        raw.opsets is Ok,
        forall|j: int| 0 <= j < raw.opsets->Ok_0@.len() ==> (#[trigger] raw.opsets->Ok_0@[j]).1 > 0,
        forall|domain: Seq<char>, a: int, b: int, i: int, j: int| #[trigger]
            declares(raw.opsets->Ok_0@, domain, a, i) && #[trigger] declares(
                raw.opsets->Ok_0@,
                domain,
                b,
                j,
            ) ==> a == b,
        part_readable(raw.inputs),
        part_readable(raw.outputs),
        part_readable(raw.initializers),
        raw.nodes is Ok,
        forall|n: int|
            0 <= n < raw.nodes->Ok_0@.len() ==> node_readable(#[trigger] raw.nodes->Ok_0@[n]),
    ensures
        captured(raw) is Ok,
{
    lemma_opsets(raw.opsets->Ok_0@);
    let start = capture_versions(raw)->Ok_0;
    lemma_slots_readable(start, raw.inputs->Ok_0@);
    let (first, inputs) = ensure_part(start, raw.inputs)->Ok_0;
    lemma_slots_readable(with_inputs(first, inputs), raw.outputs->Ok_0@);
    let (second, outputs) = ensure_part(with_inputs(first, inputs), raw.outputs)->Ok_0;
    lemma_slots_readable(with_outputs(second, outputs), raw.initializers->Ok_0@);
    let boundary = capture_boundary(start, raw)->Ok_0;
    lemma_nodes_readable(boundary, raw.nodes->Ok_0@);
}

} // verus!
