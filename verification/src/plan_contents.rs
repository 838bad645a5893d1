//! A plan depends on what a snapshot holds, not on how the snapshot lays it out.

use vstd::prelude::*;

use crate::engine::InitModel;
use crate::lex::{
    body_list, is_body_list, lemma_body_list_exists, lemma_lex_irreflexive, lemma_lex_transitive,
    lex_less,
};
use crate::ort_graph::lemma_subgraph_map;
use crate::plan_builder::{
    body_env, covers, covers_below, order_of, plan_bodies, plan_graph, plan_node, plan_nodes,
    scope_of, PlanEnv,
};
use crate::planner::{boundary_positions, drafted, root_env, RawBoundary};
use crate::sidecars::{
    entry_index, lemma_entry_well_formed, side_captured, side_index, side_with_bodies,
    side_with_node, side_with_nodes, RawSideNode, RawSideSubgraph, RawSidecars, SideModel,
};
use crate::snapshot::{
    entries_distinct, node_shots, shot_of, subgraph_map, well_formed, OrtGraphSnapshot,
    SubgraphEntry,
};

verus! {

/// Both snapshots hold the same.
pub open spec fn same_contents(a: OrtGraphSnapshot, b: OrtGraphSnapshot) -> bool {
    well_formed(a) && well_formed(b) && shot_of(a) == shot_of(b)
}

/// Each body of a snapshot has its counterpart in one that holds the same.
proof fn lemma_partner(a: OrtGraphSnapshot, b: OrtGraphSnapshot, i: int) -> (j: int)
    requires
        same_contents(a, b),
        0 <= i < a.subgraphs@.len(),
    ensures
        0 <= j < b.subgraphs@.len(),
        b.subgraphs@[j].node == a.subgraphs@[i].node,
        b.subgraphs@[j].attribute@ == a.subgraphs@[i].attribute@,
        same_contents(*a.subgraphs@[i].snapshot, *b.subgraphs@[j].snapshot),
{
    let left = a.subgraphs@;
    let right = b.subgraphs@;
    lemma_subgraph_map(left);
    lemma_subgraph_map(right);
    lemma_entry_well_formed(left);
    lemma_entry_well_formed(right);
    assert(shot_of(a).subgraphs == subgraph_map(left));
    assert(shot_of(b).subgraphs == subgraph_map(right));
    let key = (left[i].node, left[i].attribute@);
    assert(subgraph_map(left).contains_key(key));
    assert(subgraph_map(right).contains_key(key));
    let j = choose|j: int|
        0 <= j < right.len() && (#[trigger] right[j]).node == key.0 && right[j].attribute@ == key.1;
    assert(subgraph_map(left)[key] == shot_of(*left[i].snapshot));
    assert(subgraph_map(right)[(right[j].node, right[j].attribute@)] == shot_of(*right[j].snapshot));
    j
}

proof fn lemma_entry_index(entries: Seq<SubgraphEntry>, node: u32, attribute: Seq<char>)
    ensures
        match entry_index(entries, node, attribute) {
            Some(i) => 0 <= i < entries.len() && entries[i].node == node && entries[i].attribute@
                == attribute,
            None => forall|i: int|
                0 <= i < entries.len() ==> (#[trigger] entries[i]).node != node
                    || entries[i].attribute@ != attribute,
        },
    decreases entries.len(),
{
    if entries.len() > 0 {
        let front = entries.drop_last();
        lemma_entry_index(front, node, attribute);
        if entry_index(entries, node, attribute) is None {
            assert forall|i: int| 0 <= i < entries.len() implies (#[trigger] entries[i]).node != node
                || entries[i].attribute@ != attribute by {
                if i < front.len() {
                    assert(front[i] == entries[i]);
                }
            }
        }
    }
}

proof fn lemma_side_bodies_same(
    side: SideModel,
    a: OrtGraphSnapshot,
    b: OrtGraphSnapshot,
    node: u32,
    list: Seq<RawSideSubgraph>,
)
    requires
        same_contents(a, b),
    ensures
        side_with_bodies(side, a, node, list) == side_with_bodies(side, b, node, list),
    decreases list,
{
    if list.len() > 0 {
        lemma_side_bodies_same(side, a, b, node, list.drop_last());
        let attribute = list.last().attribute@;
        lemma_entry_index(a.subgraphs@, node, attribute);
        lemma_entry_index(b.subgraphs@, node, attribute);
        match entry_index(a.subgraphs@, node, attribute) {
            None => {
                if entry_index(b.subgraphs@, node, attribute) is Some {
                    let j = entry_index(b.subgraphs@, node, attribute)->0;
                    let i = lemma_partner(b, a, j);
                    assert(a.subgraphs@[i].node != node || a.subgraphs@[i].attribute@ != attribute);
                }
            },
            Some(i) => {
                let j = lemma_partner(a, b, i);
                assert(entry_index(b.subgraphs@, node, attribute) is Some) by {
                    assert(b.subgraphs@[j].node == node && b.subgraphs@[j].attribute@ == attribute);
                }
                let k = entry_index(b.subgraphs@, node, attribute)->0;
                assert(entries_distinct(b.subgraphs@));
                assert(b.subgraphs@[k].node == b.subgraphs@[j].node);
                assert(k == j);
                lemma_side_same(
                    list.last().sidecars,
                    *a.subgraphs@[i].snapshot,
                    *b.subgraphs@[j].snapshot,
                );
            },
        }
    }
}

proof fn lemma_side_node_same(
    side: SideModel,
    a: OrtGraphSnapshot,
    b: OrtGraphSnapshot,
    node: RawSideNode,
)
    requires
        same_contents(a, b),
    ensures
        side_with_node(side, a, node) == side_with_node(side, b, node),
    decreases node,
{
    assert(a.node_by_ort_id@ == shot_of(a).node_by_ort_id);
    assert(b.node_by_ort_id@ == shot_of(b).node_by_ort_id);
    if node.ort_id is Ok && a.node_by_ort_id@.contains_key(node.ort_id->Ok_0) && node.subgraphs is Ok {
        let id = a.node_by_ort_id@[node.ort_id->Ok_0];
        lemma_side_bodies_same(
            SideModel { nodes: side.nodes.insert(id, node.facts), ..side },
            a,
            b,
            id,
            node.subgraphs->Ok_0@,
        );
    }
}

proof fn lemma_side_nodes_same(a: OrtGraphSnapshot, b: OrtGraphSnapshot, nodes: Seq<RawSideNode>)
    requires
        same_contents(a, b),
    ensures
        side_with_nodes(a, nodes) == side_with_nodes(b, nodes),
    decreases nodes,
{
    if nodes.len() > 0 {
        lemma_side_nodes_same(a, b, nodes.drop_last());
        if side_with_nodes(a, nodes.drop_last()) is Ok {
            lemma_side_node_same(
                side_with_nodes(a, nodes.drop_last())->Ok_0,
                a,
                b,
                nodes.last(),
            );
        }
    }
}

proof fn lemma_side_same(raw: RawSidecars, a: OrtGraphSnapshot, b: OrtGraphSnapshot)
    requires
        same_contents(a, b),
    ensures
        side_captured(raw, a) == side_captured(raw, b),
    decreases raw,
{
    if raw.nodes is Ok {
        lemma_side_nodes_same(a, b, raw.nodes->Ok_0@);
    }
}

/// The sidecars know body `i` of the snapshot.
spec fn covers_body(side: SideModel, snapshot: OrtGraphSnapshot, i: int) -> bool {
    let entry = snapshot.subgraphs@[i];
    side_index(side.subgraphs, entry.node, entry.attribute@) matches Some(at) && covers(
        side.subgraphs[at].side,
        *entry.snapshot,
    )
}

proof fn lemma_covers_all(side: SideModel, snapshot: OrtGraphSnapshot, k: int)
    requires
        k <= snapshot.subgraphs@.len(),
    ensures
        covers_below(side, snapshot, k) <==> forall|i: int|
            0 <= i < k ==> #[trigger] covers_body(side, snapshot, i),
    decreases k,
{
    if k > 0 {
        lemma_covers_all(side, snapshot, k - 1);
        assert(covers_below(side, snapshot, k) <==> covers_below(side, snapshot, k - 1)
            && covers_body(side, snapshot, k - 1));
    }
}

proof fn lemma_covers_same(side: SideModel, a: OrtGraphSnapshot, b: OrtGraphSnapshot)
    requires
        same_contents(a, b),
    ensures
        covers(side, a) == covers(side, b),
    decreases a,
{
    lemma_covers_all(side, a, a.subgraphs@.len() as int);
    lemma_covers_all(side, b, b.subgraphs@.len() as int);
    assert(node_shots(a.nodes@).len() == node_shots(b.nodes@).len());
    if covers(side, a) {
        assert forall|j: int| 0 <= j < b.subgraphs@.len() implies #[trigger] covers_body(
            side,
            b,
            j,
        ) by {
            let i = lemma_partner(b, a, j);
            assert(covers_body(side, a, i));
            let at = side_index(side.subgraphs, b.subgraphs@[j].node, b.subgraphs@[j].attribute@)->0;
            lemma_covers_same(
                side.subgraphs[at].side,
                *a.subgraphs@[i].snapshot,
                *b.subgraphs@[j].snapshot,
            );
        }
    }
    if covers(side, b) {
        assert forall|i: int| 0 <= i < a.subgraphs@.len() implies #[trigger] covers_body(
            side,
            a,
            i,
        ) by {
            let j = lemma_partner(a, b, i);
            assert(covers_body(side, b, j));
            let at = side_index(side.subgraphs, a.subgraphs@[i].node, a.subgraphs@[i].attribute@)->0;
            lemma_covers_same(
                side.subgraphs[at].side,
                *a.subgraphs@[i].snapshot,
                *b.subgraphs@[j].snapshot,
            );
        }
    }
}

/// Each text comes before those behind it.
spec fn ascending(texts: Seq<Seq<char>>) -> bool {
    forall|x: int, y: int|
        0 <= x < y < texts.len() ==> lex_less(#[trigger] texts[x], #[trigger] texts[y])
}

/// There is one ascending list of given texts.
proof fn lemma_ascending_unique(a: Seq<Seq<char>>, b: Seq<Seq<char>>)
    requires
        ascending(a),
        ascending(b),
        forall|text: Seq<char>| #[trigger] a.contains(text) <==> b.contains(text),
    ensures
        a == b,
    decreases a.len(),
{
    if a.len() == 0 {
        if b.len() > 0 {
            assert(b.contains(b[0]));
            assert(a.contains(b[0]));
        }
        assert(a =~= b);
    } else {
        let last = a[a.len() - 1];
        assert(a.contains(last));
        assert(b.contains(last));
        let i = choose|i: int| 0 <= i < b.len() && b[i] == last;
        let end = b[b.len() - 1];
        assert(b.contains(end));
        assert(a.contains(end));
        let j = choose|j: int| 0 <= j < a.len() && a[j] == end;
        if last != end {
            assert(lex_less(b[i], b[b.len() - 1]));
            assert(lex_less(a[j], a[a.len() - 1]));
            lemma_lex_transitive(last, end, last);
            lemma_lex_irreflexive(last);
        }
        let x = a.drop_last();
        let y = b.drop_last();
        assert forall|text: Seq<char>| #[trigger] x.contains(text) <==> y.contains(text) by {
            if x.contains(text) {
                let k = choose|k: int| 0 <= k < x.len() && x[k] == text;
                assert(a[k] == text);
                assert(a.contains(text));
                let m = choose|m: int| 0 <= m < b.len() && b[m] == text;
                if m == b.len() - 1 {
                    assert(lex_less(a[k], a[a.len() - 1]));
                    lemma_lex_irreflexive(text);
                }
                assert(y[m] == text);
            }
            if y.contains(text) {
                let k = choose|k: int| 0 <= k < y.len() && y[k] == text;
                assert(b[k] == text);
                assert(b.contains(text));
                assert(a.contains(text));
                let m = choose|m: int| 0 <= m < a.len() && a[m] == text;
                if m == a.len() - 1 {
                    assert(lex_less(b[k], b[b.len() - 1]));
                    lemma_lex_irreflexive(text);
                }
                assert(x[m] == text);
            }
        }
        lemma_ascending_unique(x, y);
        assert(a =~= x.push(last));
        assert(b =~= y.push(end));
    }
}

/// The attributes of the listed bodies.
spec fn attributes(entries: Seq<SubgraphEntry>, list: Seq<int>) -> Seq<Seq<char>> {
    Seq::new(list.len(), |x: int| entries[list[x]].attribute@)
}

/// The two lists name bodies of `node` with the same attributes.
spec fn aligned(
    a: OrtGraphSnapshot,
    b: OrtGraphSnapshot,
    node: u32,
    left: Seq<int>,
    right: Seq<int>,
) -> bool {
    &&& left.len() == right.len()
    &&& forall|x: int|
        0 <= x < left.len() ==> 0 <= #[trigger] left[x] < a.subgraphs@.len() && 0 <= right[x]
            < b.subgraphs@.len() && a.subgraphs@[left[x]].node == node
            && b.subgraphs@[right[x]].node == node && a.subgraphs@[left[x]].attribute@
            == b.subgraphs@[right[x]].attribute@
}

proof fn lemma_attribute_listed(a: OrtGraphSnapshot, b: OrtGraphSnapshot, node: u32, text: Seq<char>)
    requires
        same_contents(a, b),
        is_body_list(a.subgraphs@, node, body_list(a.subgraphs@, node)),
        is_body_list(b.subgraphs@, node, body_list(b.subgraphs@, node)),
        attributes(a.subgraphs@, body_list(a.subgraphs@, node)).contains(text),
    ensures
        attributes(b.subgraphs@, body_list(b.subgraphs@, node)).contains(text),
{
    let left = body_list(a.subgraphs@, node);
    let right = body_list(b.subgraphs@, node);
    let named = attributes(a.subgraphs@, left);
    let x = choose|x: int| 0 <= x < named.len() && named[x] == text;
    assert(left.contains(left[x]));
    let j = lemma_partner(a, b, left[x]);
    assert(right.contains(j));
    let y = choose|y: int| 0 <= y < right.len() && right[y] == j;
    assert(attributes(b.subgraphs@, right)[y] == text);
}

proof fn lemma_aligned(a: OrtGraphSnapshot, b: OrtGraphSnapshot, node: u32)
    requires
        same_contents(a, b),
    ensures
        aligned(a, b, node, body_list(a.subgraphs@, node), body_list(b.subgraphs@, node)),
{
    let left = body_list(a.subgraphs@, node);
    let right = body_list(b.subgraphs@, node);
    lemma_body_list_exists(a.subgraphs@, node);
    lemma_body_list_exists(b.subgraphs@, node);
    let p = attributes(a.subgraphs@, left);
    let q = attributes(b.subgraphs@, right);
    assert(ascending(p)) by {
        assert forall|x: int, y: int| 0 <= x < y < p.len() implies lex_less(
            #[trigger] p[x],
            #[trigger] p[y],
        ) by {
            assert(p[x] == a.subgraphs@[left[x]].attribute@);
            assert(p[y] == a.subgraphs@[left[y]].attribute@);
        }
    }
    assert(ascending(q)) by {
        assert forall|x: int, y: int| 0 <= x < y < q.len() implies lex_less(
            #[trigger] q[x],
            #[trigger] q[y],
        ) by {
            assert(q[x] == b.subgraphs@[right[x]].attribute@);
            assert(q[y] == b.subgraphs@[right[y]].attribute@);
        }
    }
    assert forall|text: Seq<char>| #[trigger] p.contains(text) <==> q.contains(text) by {
        if p.contains(text) {
            lemma_attribute_listed(a, b, node, text);
        }
        if q.contains(text) {
            lemma_attribute_listed(b, a, node, text);
        }
    }
    lemma_ascending_unique(p, q);
    assert forall|x: int| 0 <= x < left.len() implies 0 <= #[trigger] left[x] < a.subgraphs@.len()
        && 0 <= right[x] < b.subgraphs@.len() && a.subgraphs@[left[x]].node == node
        && b.subgraphs@[right[x]].node == node && a.subgraphs@[left[x]].attribute@
        == b.subgraphs@[right[x]].attribute@ by {
        assert(left.contains(left[x]));
        assert(right.contains(right[x]));
        assert(p[x] == q[x]);
    }
}

proof fn lemma_bodies_same(
    a: OrtGraphSnapshot,
    b: OrtGraphSnapshot,
    side: SideModel,
    env: PlanEnv,
    node: u32,
    left: Seq<int>,
    right: Seq<int>,
)
    requires
        same_contents(a, b),
        aligned(a, b, node, left, right),
    ensures
        plan_bodies(a, side, env, node, left) == plan_bodies(b, side, env, node, right),
    decreases a, 0int, left.len(),
{
    if left.len() > 0 {
        let end = left.len() - 1;
        assert(aligned(a, b, node, left.drop_last(), right.drop_last())) by {
            assert forall|x: int| 0 <= x < end implies left.drop_last()[x] == #[trigger] left[x] by {}
        }
        lemma_bodies_same(a, b, side, env, node, left.drop_last(), right.drop_last());
        let i = left[end];
        let j = lemma_partner(a, b, i);
        assert(entries_distinct(b.subgraphs@));
        assert(b.subgraphs@[right[end]].node == b.subgraphs@[j].node);
        assert(j == right[end]);
        let at = side_index(side.subgraphs, node, a.subgraphs@[i].attribute@)->0;
        lemma_graph_same(
            *a.subgraphs@[i].snapshot,
            *b.subgraphs@[j].snapshot,
            side.subgraphs[at].side,
            env,
        );
    }
}

proof fn lemma_node_same(
    a: OrtGraphSnapshot,
    b: OrtGraphSnapshot,
    side: SideModel,
    env: PlanEnv,
    scope: Map<Seq<char>, InitModel>,
    id: u32,
)
    requires
        same_contents(a, b),
    ensures
        plan_node(a, side, env, scope, id) == plan_node(b, side, env, scope, id),
    decreases a, 1int, 0int,
{
    lemma_aligned(a, b, id);
    lemma_bodies_same(
        a,
        b,
        side,
        body_env(shot_of(a), env, scope),
        id,
        body_list(a.subgraphs@, id),
        body_list(b.subgraphs@, id),
    );
}

proof fn lemma_nodes_same(
    a: OrtGraphSnapshot,
    b: OrtGraphSnapshot,
    side: SideModel,
    env: PlanEnv,
    scope: Map<Seq<char>, InitModel>,
    order: Seq<u32>,
)
    requires
        same_contents(a, b),
    ensures
        plan_nodes(a, side, env, scope, order) == plan_nodes(b, side, env, scope, order),
    decreases a, 2int, order.len(),
{
    if order.len() > 0 {
        lemma_nodes_same(a, b, side, env, scope, order.drop_last());
        lemma_node_same(a, b, side, env, scope, order.last());
    }
}

proof fn lemma_graph_same(a: OrtGraphSnapshot, b: OrtGraphSnapshot, side: SideModel, env: PlanEnv)
    requires
        same_contents(a, b),
    ensures
        plan_graph(a, side, env) == plan_graph(b, side, env),
    decreases a, 3int, 0int,
{
    let shot = shot_of(a);
    if scope_of(shot, side, env) is Ok {
        lemma_nodes_same(a, b, side, env, scope_of(shot, side, env)->Ok_0, order_of(shot.ir));
    }
}

/// What is read beside a graph, whether it is complete, and the plan that comes of it depend on
/// what the graph's snapshot holds alone.
pub proof fn law_plan_from_contents(
    a: OrtGraphSnapshot,
    b: OrtGraphSnapshot,
    raw_side: RawSidecars,
    side: SideModel,
    inputs: RawBoundary,
    outputs: RawBoundary,
    keep_names: bool,
)
    requires
        same_contents(a, b),
    ensures
        side_captured(raw_side, a) == side_captured(raw_side, b),
        covers(side, a) == covers(side, b),
        drafted(a, side, inputs, outputs, keep_names) == drafted(
            b,
            side,
            inputs,
            outputs,
            keep_names,
        ),
{
    lemma_side_same(raw_side, a, b);
    lemma_covers_same(side, a, b);
    assert(node_shots(a.nodes@).len() == node_shots(b.nodes@).len());
    let values = shot_of(a).values;
    let ctx_inputs = boundary_positions(values, inputs);
    let ctx_outputs = boundary_positions(values, outputs);
    if ctx_inputs is Ok && ctx_outputs is Ok {
        let env = root_env(values, ctx_inputs->Ok_0, ctx_outputs->Ok_0, keep_names);
        lemma_graph_same(a, b, side, env);
    }
}

} // verus!
