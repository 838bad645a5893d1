//! What the sidecars of a graph hold, told by what was read beside it.

use vstd::prelude::*;

use crate::engine::InitModel;
use crate::init_data::{data_view, element_count, layout_of, owned_of, static_sizes};
use crate::ir::storage_bytes;
use crate::scope_laws::{body_at, is_body};
use crate::sidecars::{
    captured_inits, entry_index, raw_bytes, side_captured, side_index, side_inits, side_with_bodies,
    side_with_node, side_with_nodes, RawInitializer, RawSideNode, RawSideSubgraph, RawSidecars,
    SideBody, SideModel,
};
use crate::snapshot::{
    entries_distinct, shot_of, well_formed, DimShot, OrtGraphSnapshot, Shot, SubgraphEntry, ValueShot,
};

verus! {

/// The product of the first `k` sizes.
pub open spec fn product(sizes: Seq<i64>, k: int) -> int
    decreases k,
{
    if k <= 0 {
        1
    } else {
        product(sizes, k - 1) * sizes[k - 1]
    }
}

proof fn lemma_sizes(name: Seq<char>, dims: Seq<DimShot>)
    ensures
        static_sizes(name, dims) is Ok <==> forall|i: int|
            0 <= i < dims.len() ==> (#[trigger] dims[i]) is Static && dims[i]->Static_0 <= i64::MAX,
        static_sizes(name, dims) matches Ok(sizes) ==> sizes.len() == dims.len() && forall|i: int|
            0 <= i < dims.len() ==> #[trigger] sizes[i] == dims[i]->Static_0,
    decreases dims.len(),
{
    if dims.len() > 0 {
        let front = dims.drop_last();
        lemma_sizes(name, front);
        let last = dims[dims.len() - 1];
        assert forall|i: int| 0 <= i < front.len() implies #[trigger] front[i] == dims[i] by {}
        if static_sizes(name, dims) is Ok {
            assert forall|i: int| 0 <= i < dims.len() implies (#[trigger] dims[i]) is Static
                && dims[i]->Static_0 <= i64::MAX by {
                if i < front.len() {
                    assert(front[i] is Static);
                }
            }
        }
        if forall|i: int|
            0 <= i < dims.len() ==> (#[trigger] dims[i]) is Static && dims[i]->Static_0
                <= i64::MAX {
            assert forall|i: int| 0 <= i < front.len() implies (#[trigger] front[i]) is Static
                && front[i]->Static_0 <= i64::MAX by {
                assert(dims[i] is Static);
            }
        }
    }
}

proof fn lemma_product_prefix(a: Seq<i64>, b: Seq<i64>, k: int)
    requires
        k <= a.len(),
        k <= b.len(),
        forall|i: int| 0 <= i < k ==> #[trigger] a[i] == b[i],
    ensures
        product(a, k) == product(b, k),
    decreases k,
{
    if k > 0 {
        lemma_product_prefix(a, b, k - 1);
    }
}

proof fn lemma_count(sizes: Seq<i64>)
    requires
        forall|i: int| 0 <= i < sizes.len() ==> 0 <= #[trigger] sizes[i] <= usize::MAX,
    ensures
        element_count(sizes) is Some <==> forall|k: int|
            0 <= k <= sizes.len() ==> #[trigger] product(sizes, k) <= usize::MAX,
        element_count(sizes) matches Some(count) ==> count == product(sizes, sizes.len() as int),
    decreases sizes.len(),
{
    if sizes.len() > 0 {
        let front = sizes.drop_last();
        let n = sizes.len() as int;
        assert forall|i: int| 0 <= i < front.len() implies 0 <= #[trigger] front[i]
            <= usize::MAX by {
            assert(sizes[i] == front[i]);
        }
        lemma_count(front);
        assert forall|k: int| 0 <= k <= front.len() implies product(front, k) == #[trigger] product(
            sizes,
            k,
        ) by {
            lemma_product_prefix(front, sizes, k);
        }
        assert(product(sizes, n) == product(sizes, n - 1) * sizes[n - 1]);
        if element_count(sizes) is Some {
            assert forall|k: int| 0 <= k <= n implies #[trigger] product(sizes, k)
                <= usize::MAX by {
                if k < n {
                    assert(product(front, k) <= usize::MAX);
                }
            }
        }
        if forall|k: int| 0 <= k <= n ==> #[trigger] product(sizes, k) <= usize::MAX {
            assert forall|k: int| 0 <= k <= front.len() implies #[trigger] product(front, k)
                <= usize::MAX by {
                assert(product(sizes, k) <= usize::MAX);
            }
            assert(element_count(front) is Some);
            assert(product(sizes, n) <= usize::MAX);
            assert(product(sizes, n - 1) == product(front, n - 1));
        }
    }
}

/// The dimensions are static and fit into 64 signed bits.
pub open spec fn has_sizes(dims: Seq<DimShot>) -> bool {
    forall|i: int|
        0 <= i < dims.len() ==> (#[trigger] dims[i]) is Static && dims[i]->Static_0 <= i64::MAX
}

/// The sizes of static dimensions.
pub open spec fn sizes_of(dims: Seq<DimShot>) -> Seq<i64> {
    Seq::new(dims.len(), |i: int| dims[i]->Static_0 as i64)
}

/// A value has the layout of an initializer exactly if it is a tensor with a known element type and
/// a known shape of static sizes, and no leading part of them has more elements than the machine
/// can count. The layout tells that type, those sizes and their product, and holds no bytes.
pub proof fn law_layout(value: ValueShot)
    ensures
        layout_of(value) is Ok <==> {
            &&& value.tensor is Some
            &&& value.tensor->0.dtype is Some
            &&& value.tensor->0.shape is Some
            &&& has_sizes(value.tensor->0.shape->0)
            &&& forall|i: int|
                0 <= i < value.tensor->0.shape->0.len() ==> sizes_of(value.tensor->0.shape->0)[i]
                    <= usize::MAX
            &&& forall|k: int|
                0 <= k <= value.tensor->0.shape->0.len() ==> #[trigger] product(
                    sizes_of(value.tensor->0.shape->0),
                    k,
                ) <= usize::MAX
        },
        layout_of(value) matches Ok(layout) ==> {
            let dims = value.tensor->0.shape->0;
            &&& layout.dtype == value.tensor->0.dtype->0 as u32
            &&& layout.shape.len() == dims.len()
            &&& forall|i: int| 0 <= i < dims.len() ==> #[trigger] layout.shape[i] == dims[i]->Static_0
            &&& layout.count == product(sizes_of(dims), dims.len() as int)
            &&& layout.owned is None
        },
{
    if value.tensor is Some && value.tensor->0.shape is Some {
        let dims = value.tensor->0.shape->0;
        lemma_sizes(value.name, dims);
        if has_sizes(dims) {
            let sizes = static_sizes(value.name, dims)->Ok_0;
            assert(sizes =~= sizes_of(dims));
            if forall|i: int| 0 <= i < sizes.len() ==> #[trigger] sizes[i] <= usize::MAX {
                assert forall|i: int| 0 <= i < sizes.len() implies 0 <= #[trigger] sizes[i]
                    <= usize::MAX by {
                    assert(sizes[i] == dims[i]->Static_0);
                }
                lemma_count(sizes);
            } else {
                lemma_count_small(sizes);
            }
        }
    }
}

proof fn lemma_count_small(sizes: Seq<i64>)
    ensures
        element_count(sizes) is Some ==> forall|i: int|
            0 <= i < sizes.len() ==> 0 <= #[trigger] sizes[i] <= usize::MAX,
    decreases sizes.len(),
{
    if sizes.len() > 0 {
        lemma_count_small(sizes.drop_last());
        assert forall|i: int| 0 <= i < sizes.len() - 1 implies #[trigger] sizes[i]
            == sizes.drop_last()[i] by {}
    }
}

/// An initializer that has bytes already, or is given none, stays as it is. Otherwise its element
/// type must be a known one and its size in bytes countable; then it gets the leading bytes that
/// its elements take, or as many as there are.
pub proof fn law_owned_bytes(source: InitModel, data: Option<Seq<u8>>)
    ensures
        source.owned is Some || data is None ==> owned_of(source, data) == Ok::<
            InitModel,
            Seq<char>,
        >(source),
        source.owned is None && data is Some ==> {
            let made = owned_of(source, data);
            let bytes = storage_bytes(source.dtype as i32, source.count as nat);
            &&& made is Ok <==> 1 <= source.dtype <= 26 && bytes <= usize::MAX
            &&& made matches Ok(init) ==> {
                &&& init.shape == source.shape
                &&& init.dtype == source.dtype
                &&& init.count == source.count
                &&& init.owned is Some
                &&& init.owned->0.is_prefix_of(data->0)
                &&& init.owned->0.len() == bytes || (init.owned->0 == data->0 && data->0.len()
                    < bytes)
            }
        },
{
    if source.owned is None && data is Some && owned_of(source, data) is Ok {
        let bytes = storage_bytes(source.dtype as i32, source.count as nat);
        if bytes > data->0.len() {
            assert(data->0.take(data->0.len() as int) =~= data->0);
        }
    }
}

/// The entry at place `j` brings bytes, or a null pointer for them, under that name.
pub open spec fn brings(list: Seq<RawInitializer>, name: Seq<char>, j: int) -> bool {
    &&& 0 <= j < list.len()
    &&& list[j].name is Ok
    &&& list[j].name->Ok_0@ == name
    &&& list[j].bytes is Read
}

/// The entry can be read: it has a name, and its bytes did not fail.
pub open spec fn readable(entry: RawInitializer) -> bool {
    entry.name is Ok && !(entry.bytes is Failed)
}

proof fn lemma_raw_bytes(list: Seq<RawInitializer>)
    ensures
        raw_bytes(list) is Ok <==> forall|j: int|
            0 <= j < list.len() ==> readable(#[trigger] list[j]),
        raw_bytes(list) matches Ok(table) ==> forall|name: Seq<char>| #[trigger]
            table.contains_key(name) <==> exists|j: int| #[trigger] brings(list, name, j),
        raw_bytes(list) matches Ok(table) ==> forall|name: Seq<char>, j: int|
            #![trigger brings(list, name, j)]
            brings(list, name, j) && (forall|i: int|
                j < i < list.len() ==> !#[trigger] brings(list, name, i)) ==> table[name]
                == data_view(list[j].bytes->Read_0),
    decreases list.len(),
{
    if list.len() > 0 {
        let front = list.drop_last();
        let at = list.len() - 1;
        lemma_raw_bytes(front);
        assert forall|i: int| 0 <= i < front.len() implies #[trigger] front[i] == list[i] by {}
        if raw_bytes(list) is Ok {
            let before = raw_bytes(front)->Ok_0;
            let table = raw_bytes(list)->Ok_0;
            assert forall|j: int| 0 <= j < list.len() implies readable(#[trigger] list[j]) by {
                if j < at {
                    assert(readable(front[j]));
                }
            }
            assert forall|name: Seq<char>, j: int| j < at implies #[trigger] brings(list, name, j)
                == brings(front, name, j) by {}
            assert forall|name: Seq<char>| #[trigger] table.contains_key(name) <==> exists|j: int|
                #[trigger] brings(list, name, j) by {
                if table.contains_key(name) {
                    if before.contains_key(name) {
                        let j = choose|j: int| #[trigger] brings(front, name, j);
                        assert(brings(list, name, j));
                    } else {
                        assert(brings(list, name, at));
                    }
                }
                if exists|j: int| #[trigger] brings(list, name, j) {
                    let j = choose|j: int| #[trigger] brings(list, name, j);
                    if j < at {
                        assert(brings(front, name, j));
                    }
                }
            }
            assert forall|name: Seq<char>, j: int|
                #![trigger brings(list, name, j)]
                brings(list, name, j) && (forall|i: int|
                    j < i < list.len() ==> !#[trigger] brings(list, name, i)) implies table[name]
                == data_view(list[j].bytes->Read_0) by {
                if j < at {
                    assert(brings(front, name, j));
                    assert(!brings(list, name, at));
                    assert forall|i: int| j < i < front.len() implies !#[trigger] brings(
                        front,
                        name,
                        i,
                    ) by {
                        assert(!brings(list, name, i));
                    }
                }
            }
        } else {
            if raw_bytes(front) is Err {
                let j = choose|j: int| 0 <= j < front.len() && !readable(#[trigger] front[j]);
                assert(!readable(list[j]));
            } else {
                assert(!readable(list[at]));
            }
        }
    }
}

proof fn lemma_side_inits(shot: Shot, data: Map<Seq<char>, Option<Seq<u8>>>, k: int)
    requires
        0 <= k <= shot.values.len() <= u32::MAX + 1,
    ensures
        side_inits(shot, data, k) is Ok <==> forall|v: u32|
            v < k && #[trigger] shot.initializers.contains(v) && data.contains_key(
                shot.values[v as int].name,
            ) ==> layout_of(shot.values[v as int]) is Ok,
        side_inits(shot, data, k) matches Ok(inits) ==> forall|v: u32| #[trigger]
            inits.contains_key(v) <==> v < k && shot.initializers.contains(v) && data.contains_key(
                shot.values[v as int].name,
            ),
        side_inits(shot, data, k) matches Ok(inits) ==> forall|v: u32| #[trigger]
            inits.contains_key(v) ==> inits[v] == (
                layout_of(shot.values[v as int])->Ok_0,
                data[shot.values[v as int].name],
            ),
    decreases k,
{
    if k > 0 {
        lemma_side_inits(shot, data, k - 1);
        let id = (k - 1) as u32;
        let known = shot.initializers.contains(id);
    }
}

/// The initializers that were captured: value `v` is among them exactly if it is an initializer of
/// the graph and some entry brings bytes under its name, and it has the layout of the value and the
/// bytes of the last such entry. Capture fails exactly if the list or an entry cannot be read, or
/// one of these values has no layout.
pub proof fn law_initializers_captured(shot: Shot, list: Seq<RawInitializer>, raw: RawSidecars)
    requires
        shot.values.len() <= u32::MAX + 1,
        raw.initializers is Ok,
        raw.initializers->Ok_0@ == list,
    ensures
        captured_inits(shot, raw.initializers) is Ok <==> {
            &&& forall|j: int| 0 <= j < list.len() ==> readable(#[trigger] list[j])
            &&& forall|v: u32, j: int|
                v < shot.values.len() && #[trigger] shot.initializers.contains(v)
                    && #[trigger] brings(list, shot.values[v as int].name, j) ==> layout_of(
                    shot.values[v as int],
                ) is Ok
        },
        captured_inits(shot, raw.initializers) matches Ok(inits) ==> {
            &&& forall|v: u32| #[trigger]
                inits.contains_key(v) ==> v < shot.values.len() && shot.initializers.contains(v)
                    && exists|j: int| #[trigger] brings(list, shot.values[v as int].name, j)
            &&& forall|v: u32, j: int|
                v < shot.values.len() && shot.initializers.contains(v) && #[trigger] brings(
                    list,
                    shot.values[v as int].name,
                    j,
                ) ==> #[trigger] inits.contains_key(v)
            &&& forall|v: u32, j: int|
                #![trigger inits[v], brings(list, shot.values[v as int].name, j)]
                inits.contains_key(v) && brings(list, shot.values[v as int].name, j) && (forall|
                    i: int,
                |
                    j < i < list.len() ==> !#[trigger] brings(
                        list,
                        shot.values[v as int].name,
                        i,
                    )) ==> inits[v].0 == layout_of(shot.values[v as int])->Ok_0 && inits[v].1
                    == data_view(list[j].bytes->Read_0)
        },
{
    lemma_raw_bytes(list);
    if raw_bytes(list) is Ok {
        let data = raw_bytes(list)->Ok_0;
        lemma_side_inits(shot, data, shot.values.len() as int);
        if side_inits(shot, data, shot.values.len() as int) is Err {
            let v = choose|v: u32|
                v < shot.values.len() && #[trigger] shot.initializers.contains(v)
                    && data.contains_key(shot.values[v as int].name) && !(layout_of(
                    shot.values[v as int],
                ) is Ok);
            assert(data.contains_key(shot.values[v as int].name));
            let j = choose|j: int| #[trigger] brings(list, shot.values[v as int].name, j);
            assert(brings(list, shot.values[v as int].name, j));
        } else {
            let inits = side_inits(shot, data, shot.values.len() as int)->Ok_0;
            assert forall|v: u32, j: int|
                v < shot.values.len() && #[trigger] shot.initializers.contains(v)
                    && #[trigger] brings(list, shot.values[v as int].name, j) implies layout_of(
                shot.values[v as int],
            ) is Ok by {
                assert(data.contains_key(shot.values[v as int].name));
            }
            assert forall|v: u32, j: int|
                v < shot.values.len() && shot.initializers.contains(v) && #[trigger] brings(
                    list,
                    shot.values[v as int].name,
                    j,
                ) implies #[trigger] inits.contains_key(v) by {
                assert(data.contains_key(shot.values[v as int].name));
            }
            assert forall|v: u32| #[trigger] inits.contains_key(v) implies exists|j: int| #[trigger]
                brings(list, shot.values[v as int].name, j) by {
                assert(data.contains_key(shot.values[v as int].name));
            }
        }
    }
}

proof fn lemma_entry(snapshot: OrtGraphSnapshot, entries: Seq<SubgraphEntry>, node: u32, attribute: Seq<char>)
    requires
        entries.len() <= snapshot.subgraphs@.len(),
        entries == snapshot.subgraphs@.take(entries.len() as int),
    ensures
        entry_index(entries, node, attribute) is None <==> forall|e: int|
            e < entries.len() ==> !#[trigger] is_body(snapshot, node, attribute, e),
        entry_index(entries, node, attribute) matches Some(e) ==> e < entries.len() && is_body(
            snapshot,
            node,
            attribute,
            e,
        ),
    decreases entries.len(),
{
    if entries.len() > 0 {
        let front = entries.drop_last();
        assert(front =~= snapshot.subgraphs@.take(front.len() as int));
        lemma_entry(snapshot, front, node, attribute);
        let at = entries.len() - 1;
        assert(entries[at] == snapshot.subgraphs@[at]);
        let last = is_body(snapshot, node, attribute, at);
        if entry_index(entries, node, attribute) is None {
            assert forall|e: int| e < entries.len() implies !#[trigger] is_body(
                snapshot,
                node,
                attribute,
                e,
            ) by {
                if e < front.len() {
                    assert(!is_body(snapshot, node, attribute, e));
                }
            }
        }
    }
}

proof fn lemma_entry_is_body(snapshot: OrtGraphSnapshot, node: u32, attribute: Seq<char>)
    requires
        well_formed(snapshot),
    ensures
        entry_index(snapshot.subgraphs@, node, attribute) is Some <==> is_body(
            snapshot,
            node,
            attribute,
            body_at(snapshot, node, attribute),
        ),
        entry_index(snapshot.subgraphs@, node, attribute) matches Some(e) ==> e == body_at(
            snapshot,
            node,
            attribute,
        ),
{
    let entries = snapshot.subgraphs@;
    assert(entries =~= entries.take(entries.len() as int));
    lemma_entry(snapshot, entries, node, attribute);
    assert(entries_distinct(entries));
    let found = entry_index(entries, node, attribute);
    if found is Some {
        let e = found->0;
        let at = body_at(snapshot, node, attribute);
        assert(is_body(snapshot, node, attribute, at));
        if e < at {
            assert(entries[e].node != entries[at].node || entries[e].attribute@
                != entries[at].attribute@);
        }
        if at < e {
            assert(entries[at].node != entries[e].node || entries[at].attribute@
                != entries[e].attribute@);
        }
    }
}

/// The graph has the body, and the sidecars of the body can be captured.
pub open spec fn body_captured(
    snapshot: OrtGraphSnapshot,
    node: u32,
    body: RawSideSubgraph,
) -> bool {
    let e = body_at(snapshot, node, body.attribute@);
    &&& is_body(snapshot, node, body.attribute@, e)
    &&& side_captured(body.sidecars, *snapshot.subgraphs@[e].snapshot) is Ok
}

/// The sidecars of a body, under its node and attribute.
pub open spec fn side_body(
    snapshot: OrtGraphSnapshot,
    node: u32,
    body: RawSideSubgraph,
) -> SideBody {
    let e = body_at(snapshot, node, body.attribute@);
    SideBody {
        node,
        attribute: body.attribute@,
        side: side_captured(body.sidecars, *snapshot.subgraphs@[e].snapshot)->Ok_0,
    }
}

proof fn lemma_with_bodies(
    side: SideModel,
    snapshot: OrtGraphSnapshot,
    node: u32,
    list: Seq<RawSideSubgraph>,
)
    requires
        well_formed(snapshot),
    ensures
        side_with_bodies(side, snapshot, node, list) is Ok <==> forall|x: int|
            0 <= x < list.len() ==> body_captured(snapshot, node, #[trigger] list[x]),
        side_with_bodies(side, snapshot, node, list) matches Ok(after) ==> after.nodes == side.nodes
            && after.subgraphs == side.subgraphs + Seq::new(
            list.len(),
            |x: int| side_body(snapshot, node, list[x]),
        ),
    decreases list.len(),
{
    let added = Seq::new(list.len(), |x: int| side_body(snapshot, node, list[x]));
    if list.len() > 0 {
        let front = list.drop_last();
        let at = list.len() - 1;
        lemma_with_bodies(side, snapshot, node, front);
        lemma_entry_is_body(snapshot, node, list[at].attribute@);
        assert forall|x: int| 0 <= x < front.len() implies #[trigger] front[x] == list[x] by {}
        if side_with_bodies(side, snapshot, node, list) is Ok {
            assert forall|x: int| 0 <= x < list.len() implies body_captured(
                snapshot,
                node,
                #[trigger] list[x],
            ) by {
                if x < at {
                    assert(body_captured(snapshot, node, front[x]));
                }
            }
            let after = side_with_bodies(side, snapshot, node, list)->Ok_0;
            assert(after.subgraphs =~= side.subgraphs + added);
        } else if side_with_bodies(side, snapshot, node, front) is Err {
            let x = choose|x: int|
                0 <= x < front.len() && !body_captured(snapshot, node, #[trigger] front[x]);
            assert(!body_captured(snapshot, node, list[x]));
        } else {
            assert(!body_captured(snapshot, node, list[at]));
        }
    } else {
        assert(side.subgraphs =~= side.subgraphs + added);
    }
}

/// The node can be read: it has a number that the graph knows, and its bodies can be read.
pub open spec fn node_captured(snapshot: OrtGraphSnapshot, node: RawSideNode) -> bool {
    &&& node.ort_id is Ok
    &&& snapshot.node_by_ort_id@.contains_key(node.ort_id->Ok_0)
    &&& node.subgraphs is Ok
    &&& forall|x: int|
        0 <= x < node.subgraphs->Ok_0@.len() ==> body_captured(
            snapshot,
            snapshot.node_by_ort_id@[node.ort_id->Ok_0],
            #[trigger] node.subgraphs->Ok_0@[x],
        )
}

/// The entry at place `j` tells the facts of the node.
pub open spec fn tells_of(
    snapshot: OrtGraphSnapshot,
    nodes: Seq<RawSideNode>,
    node: u32,
    j: int,
) -> bool {
    &&& 0 <= j < nodes.len()
    &&& nodes[j].ort_id is Ok
    &&& snapshot.node_by_ort_id@.contains_key(nodes[j].ort_id->Ok_0)
    &&& snapshot.node_by_ort_id@[nodes[j].ort_id->Ok_0] == node
}

/// How many bodies the first `j` nodes have.
pub open spec fn bodies_before(nodes: Seq<RawSideNode>, j: int) -> int
    decreases j,
{
    if j <= 0 {
        0
    } else {
        bodies_before(nodes, j - 1) + nodes[j - 1].subgraphs->Ok_0@.len()
    }
}

proof fn lemma_bodies_before(a: Seq<RawSideNode>, b: Seq<RawSideNode>, j: int)
    requires
        j <= a.len(),
        j <= b.len(),
        forall|i: int| 0 <= i < j ==> #[trigger] a[i] == b[i],
    ensures
        bodies_before(a, j) == bodies_before(b, j),
        0 <= bodies_before(a, j),
    decreases j,
{
    if j > 0 {
        lemma_bodies_before(a, b, j - 1);
        assert(a[j - 1] == b[j - 1]);
    }
}

proof fn lemma_bodies_monotone(nodes: Seq<RawSideNode>, i: int, j: int)
    requires
        0 <= i <= j,
    ensures
        bodies_before(nodes, i) <= bodies_before(nodes, j),
    decreases j,
{
    if i < j {
        lemma_bodies_monotone(nodes, i, j - 1);
    }
}

proof fn lemma_with_nodes(snapshot: OrtGraphSnapshot, nodes: Seq<RawSideNode>)
    requires
        well_formed(snapshot),
    ensures
        side_with_nodes(snapshot, nodes) is Ok <==> forall|j: int|
            0 <= j < nodes.len() ==> node_captured(snapshot, #[trigger] nodes[j]),
        side_with_nodes(snapshot, nodes) matches Ok(side) ==> {
            &&& forall|node: u32| #[trigger]
                side.nodes.contains_key(node) <==> exists|j: int| #[trigger]
                    tells_of(snapshot, nodes, node, j)
            &&& forall|node: u32, j: int|
                #![trigger side.nodes[node], tells_of(snapshot, nodes, node, j)]
                tells_of(snapshot, nodes, node, j) && (forall|i: int|
                    j < i < nodes.len() ==> !#[trigger] tells_of(snapshot, nodes, node, i))
                    ==> side.nodes[node] == nodes[j].facts
            &&& side.subgraphs.len() == bodies_before(nodes, nodes.len() as int)
            &&& forall|j: int, x: int|
                0 <= j < nodes.len() && 0 <= x < nodes[j].subgraphs->Ok_0@.len()
                    ==> side.subgraphs[bodies_before(nodes, j) + x] == side_body(
                    snapshot,
                    snapshot.node_by_ort_id@[nodes[j].ort_id->Ok_0],
                    #[trigger] nodes[j].subgraphs->Ok_0@[x],
                )
        },
    decreases nodes.len(),
{
    if nodes.len() > 0 {
        let front = nodes.drop_last();
        let at = nodes.len() - 1;
        let raw = nodes[at];
        lemma_with_nodes(snapshot, front);
        assert forall|i: int| 0 <= i < front.len() implies #[trigger] front[i] == nodes[i] by {}
        lemma_bodies_before(front, nodes, at);
        let before = side_with_nodes(snapshot, front);
        assert(raw == nodes.last());
        assert(before is Ok ==> side_with_nodes(snapshot, nodes) == side_with_node(
            before->Ok_0,
            snapshot,
            raw,
        ));
        assert(before is Ok && !(raw.ort_id is Ok && snapshot.node_by_ort_id@.contains_key(
            raw.ort_id->Ok_0,
        ) && raw.subgraphs is Ok) ==> side_with_node(before->Ok_0, snapshot, raw) is Err);
        if before is Ok && raw.ort_id is Ok && snapshot.node_by_ort_id@.contains_key(
            raw.ort_id->Ok_0,
        ) && raw.subgraphs is Ok {
            let id = snapshot.node_by_ort_id@[raw.ort_id->Ok_0];
            let list = raw.subgraphs->Ok_0@;
            let grown = SideModel {
                nodes: before->Ok_0.nodes.insert(id, raw.facts),
                ..before->Ok_0
            };
            lemma_with_bodies(grown, snapshot, id, list);
            assert(side_with_node(before->Ok_0, snapshot, raw) == side_with_bodies(
                grown,
                snapshot,
                id,
                list,
            ));
        }
        if side_with_nodes(snapshot, nodes) is Ok {
            let side = side_with_nodes(snapshot, nodes)->Ok_0;
            let id = snapshot.node_by_ort_id@[raw.ort_id->Ok_0];
            let list = raw.subgraphs->Ok_0@;
            let old_side = before->Ok_0;
            assert forall|j: int| 0 <= j < nodes.len() implies node_captured(
                snapshot,
                #[trigger] nodes[j],
            ) by {
                if j < at {
                    assert(node_captured(snapshot, front[j]));
                }
            }
            assert forall|node: u32, j: int| j < at implies #[trigger] tells_of(
                snapshot,
                nodes,
                node,
                j,
            ) == tells_of(snapshot, front, node, j) by {}
            assert(tells_of(snapshot, nodes, id, at));
            assert forall|node: u32| #[trigger] side.nodes.contains_key(node) <==> exists|j: int|
                #[trigger] tells_of(snapshot, nodes, node, j) by {
                if side.nodes.contains_key(node) && node != id {
                    assert(old_side.nodes.contains_key(node));
                    let j = choose|j: int| #[trigger] tells_of(snapshot, front, node, j);
                    assert(tells_of(snapshot, nodes, node, j));
                }
                if exists|j: int| #[trigger] tells_of(snapshot, nodes, node, j) {
                    let j = choose|j: int| #[trigger] tells_of(snapshot, nodes, node, j);
                    if j < at {
                        assert(tells_of(snapshot, front, node, j));
                        assert(old_side.nodes.contains_key(node));
                    }
                }
            }
            assert forall|node: u32, j: int|
                #![trigger side.nodes[node], tells_of(snapshot, nodes, node, j)]
                tells_of(snapshot, nodes, node, j) && (forall|i: int|
                    j < i < nodes.len() ==> !#[trigger] tells_of(snapshot, nodes, node, i))
                implies side.nodes[node] == nodes[j].facts by {
                if j < at {
                    assert(!tells_of(snapshot, nodes, node, at));
                    assert(node != id);
                    assert(tells_of(snapshot, front, node, j));
                    assert forall|i: int| j < i < front.len() implies !#[trigger] tells_of(
                        snapshot,
                        front,
                        node,
                        i,
                    ) by {
                        assert(!tells_of(snapshot, nodes, node, i));
                    }
                    assert(old_side.nodes[node] == front[j].facts);
                }
            }
            assert forall|j: int, x: int|
                0 <= j < nodes.len() && 0 <= x < nodes[j].subgraphs->Ok_0@.len()
                implies side.subgraphs[bodies_before(nodes, j) + x] == side_body(
                snapshot,
                snapshot.node_by_ort_id@[nodes[j].ort_id->Ok_0],
                #[trigger] nodes[j].subgraphs->Ok_0@[x],
            ) by {
                if j < at {
                    let body = front[j].subgraphs->Ok_0@[x];
                    lemma_bodies_before(front, nodes, j);
                    lemma_bodies_monotone(nodes, j + 1, at);
                    assert(bodies_before(nodes, j + 1) == bodies_before(nodes, j)
                        + nodes[j].subgraphs->Ok_0@.len());
                    assert(old_side.subgraphs[bodies_before(front, j) + x] == side_body(
                        snapshot,
                        snapshot.node_by_ort_id@[front[j].ort_id->Ok_0],
                        body,
                    ));
                }
            }
        } else if before is Err {
            let j = choose|j: int|
                0 <= j < front.len() && !node_captured(snapshot, #[trigger] front[j]);
            assert(!node_captured(snapshot, nodes[j]));
        } else {
            assert(!node_captured(snapshot, nodes[at]));
        }
    }
}

/// The sidecars that were captured hold, for every node that some entry names by a known number,
/// the facts of the last such entry, and for every body of every entry, in reading order, the
/// sidecars of the graph's body of that node and attribute; the initializers are those of the
/// graph. Capture fails exactly if something cannot be read, a number is unknown, or the graph has
/// no such body.
pub proof fn law_sidecars_captured(raw: RawSidecars, snapshot: OrtGraphSnapshot)
    requires
        well_formed(snapshot),
    ensures
        side_captured(raw, snapshot) is Ok <==> {
            &&& raw.nodes is Ok
            &&& forall|j: int|
                0 <= j < raw.nodes->Ok_0@.len() ==> node_captured(
                    snapshot,
                    #[trigger] raw.nodes->Ok_0@[j],
                )
            &&& captured_inits(shot_of(snapshot), raw.initializers) is Ok
        },
        side_captured(raw, snapshot) matches Ok(side) ==> {
            let nodes = raw.nodes->Ok_0@;
            &&& captured_inits(shot_of(snapshot), raw.initializers) == Ok::<
                Map<u32, (InitModel, Option<Seq<u8>>)>,
                Seq<char>,
            >(side.initializers)
            &&& forall|node: u32| #[trigger]
                side.nodes.contains_key(node) <==> exists|j: int| #[trigger]
                    tells_of(snapshot, nodes, node, j)
            &&& forall|node: u32, j: int|
                #![trigger side.nodes[node], tells_of(snapshot, nodes, node, j)]
                tells_of(snapshot, nodes, node, j) && (forall|i: int|
                    j < i < nodes.len() ==> !#[trigger] tells_of(snapshot, nodes, node, i))
                    ==> side.nodes[node] == nodes[j].facts
            &&& side.subgraphs.len() == bodies_before(nodes, nodes.len() as int)
            &&& forall|j: int, x: int|
                0 <= j < nodes.len() && 0 <= x < nodes[j].subgraphs->Ok_0@.len()
                    ==> side.subgraphs[bodies_before(nodes, j) + x] == side_body(
                    snapshot,
                    snapshot.node_by_ort_id@[nodes[j].ort_id->Ok_0],
                    #[trigger] nodes[j].subgraphs->Ok_0@[x],
                )
        },
{
    if raw.nodes is Ok {
        lemma_with_nodes(snapshot, raw.nodes->Ok_0@);
    }
}

/// Looking a body's sidecars up finds the last that were captured under its node and attribute.
pub proof fn law_last_sidecars_found(bodies: Seq<SideBody>, node: u32, attribute: Seq<char>)
    ensures
        side_index(bodies, node, attribute) is None <==> forall|i: int|
            0 <= i < bodies.len() ==> !((#[trigger] bodies[i]).node == node && bodies[i].attribute
                == attribute),
        side_index(bodies, node, attribute) matches Some(i) ==> {
            &&& 0 <= i < bodies.len()
            &&& bodies[i].node == node
            &&& bodies[i].attribute == attribute
            &&& forall|j: int|
                i < j < bodies.len() ==> !((#[trigger] bodies[j]).node == node
                    && bodies[j].attribute == attribute)
        },
    decreases bodies.len(),
{
    if bodies.len() > 0 {
        let front = bodies.drop_last();
        law_last_sidecars_found(front, node, attribute);
        assert forall|i: int| 0 <= i < front.len() implies #[trigger] front[i] == bodies[i] by {}
        let last = bodies[bodies.len() - 1];
        match side_index(front, node, attribute) {
            Some(i) => {
                assert(front[i] == bodies[i]);
                assert forall|j: int| i < j < bodies.len() - 1 implies !((#[trigger] bodies[j]).node
                    == node && bodies[j].attribute == attribute) by {
                    assert(front[j] == bodies[j]);
                }
            },
            None => {},
        }
        if side_index(bodies, node, attribute) is None {
            assert forall|i: int| 0 <= i < bodies.len() implies !((#[trigger] bodies[i]).node
                == node && bodies[i].attribute == attribute) by {
                if i < front.len() {
                    assert(front[i] == bodies[i]);
                }
            }
        }
    }
}

} // verus!
