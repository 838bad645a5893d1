//! The IR's topology as adjacency lists over positions in a node order.

use std::collections::HashMap;

use vstd::prelude::*;

use crate::digraph::{
    all_marked, count_into, in_degree, in_range, ints, lemma_occurrences_distinct, rows,
};
use crate::grouping::{lemma_select, select};
use crate::ir::{
    ascends, ir_feeds, ir_read_by, ir_state, predecessors, successors, IrState, NodeId,
};

verus! {

broadcast use vstd::std_specs::hash::group_hash_axioms;

/// `p` lists `v` as an output.
pub open spec fn produces(state: IrState, p: u32, v: int) -> bool {
    p < state.nodes.len() && state.nodes[p as int].outputs.contains(v as u32)
}

/// Values exist where nodes mention them, readers are linked to the slots they read from, and the
/// recorded producer of a value lists it as an output.
pub open spec fn linked(state: IrState) -> bool {
    &&& state.compact
    &&& state.nodes.len() <= u32::MAX + 1
    &&& state.values.len() <= u32::MAX + 1
    &&& forall|n: int, i: int|
        0 <= n < state.nodes.len() && 0 <= i < state.nodes[n].inputs.len() && (
        #[trigger] state.nodes[n].inputs[i]) is Some ==> state.nodes[n].inputs[i]->0
            < state.values.len()
    &&& forall|n: int, i: int|
        0 <= n < state.nodes.len() && 0 <= i < state.nodes[n].outputs.len()
            ==> #[trigger] state.nodes[n].outputs[i] < state.values.len()
    &&& forall|v: int, n: u32, i: u32|
        0 <= v < state.values.len() ==> (#[trigger] state.values[v].uses.contains((n, i)) <==> n
            < state.nodes.len() && i < state.nodes[n as int].inputs.len()
            && state.nodes[n as int].inputs[i as int] == Some(v as u32))
    &&& forall|v: int, p: u32|
        0 <= v < state.values.len() && state.values[v].producer == Some(p) ==> #[trigger] produces(
            state,
            p,
            v,
        )
    &&& forall|n: int| 0 <= n < state.nodes.len() ==> (#[trigger] state.nodes[n]).inputs.len() <= u32::MAX
}

/// The nodes that read what `p` produces, ascending.
pub open spec fn readers(state: IrState, p: int) -> Seq<int> {
    select(|n: int| ir_read_by(state, p, n), state.nodes.len() as int)
}

/// The nodes that produce what `n` reads, ascending.
pub open spec fn feeders(state: IrState, n: int) -> Seq<int> {
    select(|p: int| ir_feeds(state, p, n), state.nodes.len() as int)
}

/// The positions in `order` of those `ids` that it lists.
pub open spec fn located(ids: Seq<int>, order: Seq<u32>) -> Seq<int>
    decreases ids.len(),
{
    if ids.len() == 0 {
        Seq::empty()
    } else {
        let front = located(ids.drop_last(), order);
        if order.contains(ids.last() as u32) {
            front.push(order.index_of(ids.last() as u32))
        } else {
            front
        }
    }
}

/// Reader lists over positions in `order`.
pub open spec fn forward_rows(state: IrState, order: Seq<u32>) -> Seq<Seq<int>> {
    Seq::new(order.len(), |i: int| located(readers(state, order[i] as int), order))
}

/// Feeder lists over positions in `order`.
pub open spec fn backward_rows(state: IrState, order: Seq<u32>) -> Seq<Seq<int>> {
    Seq::new(order.len(), |i: int| located(feeders(state, order[i] as int), order))
}

/// A list of distinct live nodes.
pub open spec fn is_listing(state: IrState, order: Seq<u32>) -> bool {
    &&& order.no_duplicates()
    &&& forall|i: int| 0 <= i < order.len() ==> #[trigger] order[i] < state.nodes.len()
}

/// A listed node that reads an output of another is fed by it.
pub open spec fn agreed(state: IrState, order: Seq<u32>) -> bool {
    forall|a: int, b: int|
        0 <= a < order.len() && 0 <= b < order.len() && #[trigger] ir_read_by(
            state,
            order[a] as int,
            order[b] as int,
        ) ==> ir_feeds(state, order[a] as int, order[b] as int)
}

/// In a linked graph a node reads whatever feeds it.
pub proof fn lemma_links(state: IrState, p: int, n: int)
    requires
        linked(state),
        0 <= p < state.nodes.len(),
        0 <= n <= u32::MAX,
    ensures
        ir_read_by(state, p, n) ==> n < state.nodes.len(),
        n < state.nodes.len() && ir_feeds(state, p, n) ==> ir_read_by(state, p, n),
{
    if n < state.nodes.len() && ir_feeds(state, p, n) {
        let i = choose|i: int|
            0 <= i < state.nodes[n].inputs.len() && #[trigger] state.nodes[n].inputs[i] is Some
                && state.nodes[n].inputs[i]->0 < state.values.len()
                && state.values[state.nodes[n].inputs[i]->0 as int].producer == Some(p as u32);
        let v = state.nodes[n].inputs[i]->0 as int;
        let node = state.nodes[p];
        assert(produces(state, p as u32, v));
        let j = choose|j: int| 0 <= j < node.outputs.len() && node.outputs[j] == v as u32;
        assert(state.nodes[n].inputs.len() <= u32::MAX);
        assert(state.values[v].uses.contains((n as u32, i as u32)));
        assert(state.values[state.nodes[p].outputs[j] as int].uses.contains((n as u32, i as u32)));
    }
}

/// Ascending sequences with the same members are the same.
pub proof fn lemma_ascending_unique(a: Seq<int>, b: Seq<int>)
    requires
        forall|i: int, j: int| 0 <= i < j < a.len() ==> a[i] < a[j],
        forall|i: int, j: int| 0 <= i < j < b.len() ==> b[i] < b[j],
        forall|v: int| #[trigger] a.contains(v) <==> b.contains(v),
    ensures
        a == b,
    decreases a.len(),
{
    if a.len() == 0 {
        if b.len() > 0 {
            assert(b.contains(b[0]));
            assert(a.contains(b[0]));
        }
        assert(a =~= b);
    } else {
        assert(a.contains(a[0]));
        assert(b.contains(a[0]));
        assert(a.contains(a[a.len() - 1]));
        assert(b.contains(a.last()));
        let i = choose|i: int| 0 <= i < b.len() && b[i] == a.last();
        assert(b.contains(b[b.len() - 1]));
        assert(a.contains(b.last()));
        let j = choose|j: int| 0 <= j < a.len() && a[j] == b.last();
        assert(a.last() == b.last());
        let x = a.drop_last();
        let y = b.drop_last();
        assert forall|v: int| #[trigger] x.contains(v) <==> y.contains(v) by {
            if x.contains(v) {
                let k = choose|k: int| 0 <= k < x.len() && x[k] == v;
                assert(a[k] == v);
                assert(a.contains(v));
                assert(b.contains(v));
                let m = choose|m: int| 0 <= m < b.len() && b[m] == v;
                assert(y[m] == v);
            }
            if y.contains(v) {
                let k = choose|k: int| 0 <= k < y.len() && y[k] == v;
                assert(b[k] == v);
                assert(b.contains(v));
                assert(a.contains(v));
                let m = choose|m: int| 0 <= m < a.len() && a[m] == v;
                assert(x[m] == v);
            }
        }
        lemma_ascending_unique(x, y);
        assert(a =~= x.push(a.last()));
        assert(b =~= y.push(b.last()));
    }
}

/// The ids as mathematical integers.
pub open spec fn id_ints(ids: Seq<u32>) -> Seq<int> {
    Seq::new(ids.len(), |i: int| ids[i] as int)
}

proof fn lemma_ids_are_selection(ids: Seq<u32>, keep: spec_fn(int) -> bool, n: int)
    requires
        ascends(ids),
        forall|x: u32| #[trigger] ids.contains(x) ==> x < n && keep(x as int),
        forall|x: int| 0 <= x < n && #[trigger] keep(x) ==> x <= u32::MAX && ids.contains(x as u32),
    ensures
        id_ints(ids) == select(keep, n),
{
    lemma_select(keep, n);
    let a = id_ints(ids);
    let b = select(keep, n);
    assert forall|v: int| #[trigger] a.contains(v) <==> b.contains(v) by {
        if a.contains(v) {
            let i = choose|i: int| 0 <= i < a.len() && a[i] == v;
            assert(ids.contains(ids[i]));
        }
        if b.contains(v) {
            assert(keep(v));
            let i = choose|i: int| 0 <= i < ids.len() && ids[i] == v as u32;
            assert(a[i] == v);
        }
    }
    lemma_ascending_unique(a, b);
}

/// The position of every listed node.
pub(crate) fn positions_of(order: &[NodeId]) -> (positions: HashMap<u32, usize>)
    requires
        order@.no_duplicates(),
    ensures
        forall|x: u32| #[trigger] positions@.contains_key(x) <==> order@.contains(x),
        forall|x: u32| #[trigger]
            positions@.contains_key(x) ==> positions@[x] == order@.index_of(x),
{
    let mut positions: HashMap<u32, usize> = HashMap::new();
    let mut at: usize = 0;
    while at < order.len()
        invariant
            at <= order@.len(),
            order@.no_duplicates(),
            forall|x: u32| #[trigger]
                positions@.contains_key(x) <==> order@.take(at as int).contains(x),
            forall|x: u32| #[trigger]
                positions@.contains_key(x) ==> positions@[x] == order@.index_of(x),
        decreases order@.len() - at,
    {
        let id: u32 = order[at];
        let ghost before = positions@;
        positions.insert(id, at);
        proof {
            let shorter = order@.take(at as int);
            let longer = order@.take(at + 1);
            assert(order@[order@.index_of(id)] == id) by {
                assert(order@.contains(order@[at as int]));
            }
            assert forall|x: u32| #[trigger] positions@.contains_key(x) <==> longer.contains(x) by {
                if shorter.contains(x) {
                    let i = choose|i: int| 0 <= i < shorter.len() && shorter[i] == x;
                    assert(longer[i] == x);
                }
                if longer.contains(x) && x != id {
                    let i = choose|i: int| 0 <= i < longer.len() && longer[i] == x;
                    assert(shorter[i] == x);
                }
                assert(longer[at as int] == id);
            }
        }
        at = at + 1;
    }
    proof {
        assert(order@.take(at as int) =~= order@);
    }
    positions
}

fn locate(ids: &Vec<u32>, order: &[NodeId], positions: &HashMap<u32, usize>) -> (row: Vec<usize>)
    requires
        forall|x: u32| #[trigger] positions@.contains_key(x) <==> order@.contains(x),
        forall|x: u32| #[trigger]
            positions@.contains_key(x) ==> positions@[x] == order@.index_of(x),
    ensures
        ints(row@) == located(id_ints(ids@), order@),
{
    let mut row: Vec<usize> = Vec::new();
    let mut at: usize = 0;
    let ghost all = id_ints(ids@);
    proof {
        assert(all.take(0) =~= Seq::<int>::empty());
        assert(ints(row@) =~= located(all.take(0), order@));
    }
    while at < ids.len()
        invariant
            at <= ids@.len(),
            all == id_ints(ids@),
            forall|x: u32| #[trigger] positions@.contains_key(x) <==> order@.contains(x),
            forall|x: u32| #[trigger]
                positions@.contains_key(x) ==> positions@[x] == order@.index_of(x),
            ints(row@) == located(all.take(at as int), order@),
        decreases ids@.len() - at,
    {
        let id: u32 = ids[at];
        let ghost before = row@;
        proof {
            assert(all.take(at + 1).drop_last() =~= all.take(at as int));
            assert(all.take(at + 1).last() == id);
        }
        match positions.get(&id) {
            Some(position) => {
                row.push(*position);
                proof {
                    assert(ints(row@) =~= ints(before).push(order@.index_of(id)));
                }
            },
            None => {},
        }
        at = at + 1;
    }
    proof {
        assert(all.take(at as int) =~= all);
    }
    row
}

/// The readers of every listed node, as positions.
pub(crate) fn successor_rows(
    graph: &onnx_runtime_ir::Graph,
    order: &[NodeId],
    positions: &HashMap<u32, usize>,
) -> (lists: Vec<Vec<usize>>)
    requires
        linked(ir_state(*graph)),
        is_listing(ir_state(*graph), order@),
        forall|x: u32| #[trigger] positions@.contains_key(x) <==> order@.contains(x),
        forall|x: u32| #[trigger]
            positions@.contains_key(x) ==> positions@[x] == order@.index_of(x),
    ensures
        rows(lists@) == forward_rows(ir_state(*graph), order@),
{
    let ghost state = ir_state(*graph);
    let mut lists: Vec<Vec<usize>> = Vec::new();
    while lists.len() < order.len()
        invariant
            state == ir_state(*graph),
            linked(state),
            is_listing(state, order@),
            lists@.len() <= order@.len(),
            forall|x: u32| #[trigger] positions@.contains_key(x) <==> order@.contains(x),
            forall|x: u32| #[trigger]
                positions@.contains_key(x) ==> positions@[x] == order@.index_of(x),
            forall|i: int|
                0 <= i < lists@.len() ==> ints((#[trigger] lists@[i])@) == forward_rows(
                    state,
                    order@,
                )[i],
        decreases order@.len() - lists@.len(),
    {
        let node: u32 = order[lists.len()];
        let ids: Vec<u32> = successors(graph, node);
        proof {
            let keep = |n: int| ir_read_by(state, node as int, n);
            assert forall|x: u32| #[trigger] ids@.contains(x) implies x < state.nodes.len() && keep(
                x as int,
            ) by {
                lemma_links(state, node as int, x as int);
            }
            assert forall|x: int| 0 <= x < state.nodes.len() && #[trigger] keep(x) implies x
                <= u32::MAX && ids@.contains(x as u32) by {}
            lemma_ids_are_selection(ids@, keep, state.nodes.len() as int);
        }
        lists.push(locate(&ids, order, positions));
    }
    proof {
        assert(rows(lists@) =~= forward_rows(state, order@));
    }
    lists
}

/// The feeders of every listed node, as positions.
pub(crate) fn predecessor_rows(
    graph: &onnx_runtime_ir::Graph,
    order: &[NodeId],
    positions: &HashMap<u32, usize>,
) -> (lists: Vec<Vec<usize>>)
    requires
        linked(ir_state(*graph)),
        is_listing(ir_state(*graph), order@),
        forall|x: u32| #[trigger] positions@.contains_key(x) <==> order@.contains(x),
        forall|x: u32| #[trigger]
            positions@.contains_key(x) ==> positions@[x] == order@.index_of(x),
    ensures
        rows(lists@) == backward_rows(ir_state(*graph), order@),
{
    let ghost state = ir_state(*graph);
    let mut lists: Vec<Vec<usize>> = Vec::new();
    while lists.len() < order.len()
        invariant
            state == ir_state(*graph),
            linked(state),
            is_listing(state, order@),
            lists@.len() <= order@.len(),
            forall|x: u32| #[trigger] positions@.contains_key(x) <==> order@.contains(x),
            forall|x: u32| #[trigger]
                positions@.contains_key(x) ==> positions@[x] == order@.index_of(x),
            forall|i: int|
                0 <= i < lists@.len() ==> ints((#[trigger] lists@[i])@) == backward_rows(
                    state,
                    order@,
                )[i],
        decreases order@.len() - lists@.len(),
    {
        let node: u32 = order[lists.len()];
        let ids: Vec<u32> = predecessors(graph, node);
        proof {
            let keep = |p: int| ir_feeds(state, p, node as int);
            assert forall|x: u32| #[trigger] ids@.contains(x) implies x < state.nodes.len() && keep(
                x as int,
            ) by {
                let n = node as int;
                let i = choose|i: int|
                    0 <= i < state.nodes[n].inputs.len()
                        && #[trigger] state.nodes[n].inputs[i] is Some
                        && state.nodes[n].inputs[i]->0 < state.values.len()
                        && state.values[state.nodes[n].inputs[i]->0 as int].producer == Some(x);
                let v = state.nodes[n].inputs[i]->0 as int;
                assert(produces(state, x, v));
            }
            assert forall|x: int| 0 <= x < state.nodes.len() && #[trigger] keep(x) implies x
                <= u32::MAX && ids@.contains(x as u32) by {}
            lemma_ids_are_selection(ids@, keep, state.nodes.len() as int);
        }
        lists.push(locate(&ids, order, positions));
    }
    proof {
        assert(rows(lists@) =~= backward_rows(state, order@));
    }
    lists
}

/// What `located` lists: positions of members, each once.
pub proof fn lemma_located(ids: Seq<int>, order: Seq<u32>, bound: int)
    requires
        order.no_duplicates(),
        forall|i: int, j: int| 0 <= i < j < ids.len() ==> ids[i] < ids[j],
        forall|i: int| 0 <= i < ids.len() ==> 0 <= #[trigger] ids[i] < bound,
        bound <= u32::MAX + 1,
    ensures
        located(ids, order).no_duplicates(),
        forall|v: int| #[trigger]
            located(ids, order).contains(v) <==> 0 <= v < order.len() && ids.contains(
                order[v] as int,
            ),
    decreases ids.len(),
{
    let row = located(ids, order);
    if ids.len() > 0 {
        let front = ids.drop_last();
        assert forall|i: int| 0 <= i < front.len() implies 0 <= #[trigger] front[i] < bound by {
            assert(front[i] == ids[i]);
        }
        lemma_located(front, order, bound);
        let before = located(front, order);
        let id = ids.last();
        assert(ids[ids.len() - 1] == id);
        assert(!front.contains(id)) by {
            if front.contains(id) {
                let i = choose|i: int| 0 <= i < front.len() && front[i] == id;
                assert(ids[i] < ids[ids.len() - 1]);
            }
        }
        if order.contains(id as u32) {
            let at = order.index_of(id as u32);
            assert(order[at] == id as u32);
            assert(!before.contains(at));
            assert forall|v: int| #[trigger] row.contains(v) <==> 0 <= v < order.len()
                && ids.contains(order[v] as int) by {
                if row.contains(v) {
                    let i = choose|i: int| 0 <= i < row.len() && row[i] == v;
                    if i < before.len() {
                        assert(before[i] == v);
                        assert(before.contains(v));
                        let j = choose|j: int| 0 <= j < front.len() && front[j] == order[v];
                        assert(ids[j] == order[v]);
                    } else {
                        assert(ids[ids.len() - 1] == order[v]);
                    }
                }
                if 0 <= v < order.len() && ids.contains(order[v] as int) {
                    let j = choose|j: int| 0 <= j < ids.len() && ids[j] == order[v];
                    if j < front.len() {
                        assert(front[j] == order[v]);
                        assert(before.contains(v));
                        let i = choose|i: int| 0 <= i < before.len() && before[i] == v;
                        assert(row[i] == v);
                    } else {
                        assert(order[at] == order[v]);
                        assert(at == v);
                        assert(row[before.len() as int] == v);
                    }
                }
            }
        } else {
            assert forall|v: int| #[trigger] row.contains(v) <==> 0 <= v < order.len()
                && ids.contains(order[v] as int) by {
                if 0 <= v < order.len() && ids.contains(order[v] as int) {
                    let j = choose|j: int| 0 <= j < ids.len() && ids[j] == order[v];
                    if j < front.len() {
                        assert(front[j] == order[v]);
                    } else {
                        assert(order.contains(order[v]));
                    }
                }
                if before.contains(v) {
                    let j = choose|j: int| 0 <= j < front.len() && front[j] == order[v];
                    assert(ids[j] == order[v]);
                }
            }
        }
    }
}

/// Membership in the rows: forward, `b` reads what `a` puts out; backward, `a` feeds `b`.
pub proof fn lemma_rows(state: IrState, order: Seq<u32>)
    requires
        linked(state),
        is_listing(state, order),
    ensures
        forall|a: int, b: int|
            0 <= a < order.len() ==> (#[trigger] forward_rows(state, order)[a].contains(b) <==> 0
                <= b < order.len() && ir_read_by(state, order[a] as int, order[b] as int)),
        forall|a: int, b: int|
            0 <= b < order.len() ==> (#[trigger] backward_rows(state, order)[b].contains(a) <==> 0
                <= a < order.len() && ir_feeds(state, order[a] as int, order[b] as int)),
        forall|a: int|
            0 <= a < order.len() ==> (#[trigger] forward_rows(state, order)[a]).no_duplicates(),
        forall|a: int|
            0 <= a < order.len() ==> (#[trigger] backward_rows(state, order)[a]).no_duplicates(),
        in_range(forward_rows(state, order)),
        in_range(backward_rows(state, order)),
{
    let n = state.nodes.len() as int;
    assert forall|a: int| 0 <= a < order.len() implies (#[trigger] forward_rows(
        state,
        order,
    )[a]).no_duplicates() && forall|b: int| #[trigger]
        forward_rows(state, order)[a].contains(b) <==> 0 <= b < order.len() && ir_read_by(
            state,
            order[a] as int,
            order[b] as int,
        ) by {
        let keep = |x: int| ir_read_by(state, order[a] as int, x);
        let ids = readers(state, order[a] as int);
        lemma_select(keep, n);
        assert forall|i: int| 0 <= i < ids.len() implies 0 <= #[trigger] ids[i] < n by {
            assert(ids.contains(ids[i]));
        }
        lemma_located(ids, order, n);
        assert forall|b: int| #[trigger] forward_rows(state, order)[a].contains(b) <==> 0 <= b
            < order.len() && ir_read_by(state, order[a] as int, order[b] as int) by {
            if 0 <= b < order.len() {
                assert(ids.contains(order[b] as int) <==> keep(order[b] as int));
            }
        }
    }
    assert forall|b: int| 0 <= b < order.len() implies (#[trigger] backward_rows(
        state,
        order,
    )[b]).no_duplicates() && forall|a: int| #[trigger]
        backward_rows(state, order)[b].contains(a) <==> 0 <= a < order.len() && ir_feeds(
            state,
            order[a] as int,
            order[b] as int,
        ) by {
        let keep = |x: int| ir_feeds(state, x, order[b] as int);
        let ids = feeders(state, order[b] as int);
        lemma_select(keep, n);
        assert forall|i: int| 0 <= i < ids.len() implies 0 <= #[trigger] ids[i] < n by {
            assert(ids.contains(ids[i]));
        }
        lemma_located(ids, order, n);
        assert forall|a: int| #[trigger] backward_rows(state, order)[b].contains(a) <==> 0 <= a
            < order.len() && ir_feeds(state, order[a] as int, order[b] as int) by {
            if 0 <= a < order.len() {
                assert(ids.contains(order[a] as int) <==> keep(order[a] as int));
            }
        }
    }
    let forward = forward_rows(state, order);
    assert forall|v: int, j: int|
        0 <= v < forward.len() && 0 <= j < forward[v].len() implies 0 <= #[trigger] forward[v][j]
        < forward.len() by {
        assert(forward[v].contains(forward[v][j]));
    }
    let backward = backward_rows(state, order);
    assert forall|v: int, j: int|
        0 <= v < backward.len() && 0 <= j < backward[v].len() implies 0 <= #[trigger] backward[v][j]
        < backward.len() by {
        assert(backward[v].contains(backward[v][j]));
    }
}

proof fn lemma_count_is_selection(adj: Seq<Seq<int>>, v: int, k: int)
    requires
        0 <= k <= adj.len(),
        forall|a: int| 0 <= a < adj.len() ==> (#[trigger] adj[a]).no_duplicates(),
    ensures
        count_into(adj, all_marked(adj.len()), v, k) == select(
            |u: int| adj[u].contains(v),
            k,
        ).len(),
    decreases k,
{
    if k > 0 {
        lemma_count_is_selection(adj, v, k - 1);
        lemma_occurrences_distinct(adj[k - 1], v);
    }
}

/// Where readers and producers agree, the feeder list of a node is as long as its number of
/// incoming edges.
pub proof fn lemma_degrees(state: IrState, order: Seq<u32>, v: int)
    requires
        linked(state),
        is_listing(state, order),
        agreed(state, order),
        0 <= v < order.len(),
    ensures
        in_degree(forward_rows(state, order), v) == backward_rows(state, order)[v].len(),
{
    let forward = forward_rows(state, order);
    let back = backward_rows(state, order)[v];
    let n = order.len() as int;
    lemma_rows(state, order);
    lemma_count_is_selection(forward, v, n);
    let keep = |u: int| forward[u].contains(v);
    let chosen = select(keep, n);
    lemma_select(keep, n);
    assert(chosen.no_duplicates());
    assert forall|u: int| chosen.to_set().contains(u) <==> back.to_set().contains(u) by {
        assert(chosen.contains(u) <==> 0 <= u < n && keep(u));
        assert(backward_rows(state, order)[v].contains(u) <==> 0 <= u < n && ir_feeds(
            state,
            order[u] as int,
            order[v] as int,
        ));
        if 0 <= u < n {
            lemma_links(state, order[u] as int, order[v] as int);
            assert(forward[u].contains(v) <==> ir_read_by(
                state,
                order[u] as int,
                order[v] as int,
            ));
        }
    }
    assert(chosen.to_set() =~= back.to_set());
    chosen.unique_seq_to_set();
    back.unique_seq_to_set();
}

/// No more edges lead into a node than there are nodes.
pub proof fn lemma_degree_bound(state: IrState, order: Seq<u32>, v: int)
    requires
        linked(state),
        is_listing(state, order),
    ensures
        in_degree(forward_rows(state, order), v) <= order.len(),
{
    let forward = forward_rows(state, order);
    lemma_rows(state, order);
    lemma_count_is_selection(forward, v, order.len() as int);
    lemma_select_short(|u: int| forward[u].contains(v), order.len() as int);
}

proof fn lemma_select_short(keep: spec_fn(int) -> bool, k: int)
    requires
        0 <= k,
    ensures
        select(keep, k).len() <= k,
    decreases k,
{
    if k > 0 {
        lemma_select_short(keep, k - 1);
    }
}

} // verus!
