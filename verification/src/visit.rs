//! Visiting a graph from its sources: a node is stacked once as many edges into it were followed
//! as its degree says.

use vstd::prelude::*;

use crate::digraph::{
    acyclic, count_into, edges_of, in_degree, in_range, ints, lemma_count_against_degree,
    lemma_count_mark, lemma_count_unmarked, lemma_distinct_bounded, lemma_occurrences_push,
    occurrences, rows,
};
use crate::grouping::{lemma_select, select};
use crate::peel::{
    lemma_append, lemma_distinct_prefix, lemma_peeled_all, lemma_ready, lemma_rotate, lemma_spare,
    predecessors_first, stuck,
};

verus! {

/// A visit under way: how often edges into each node were followed, the nodes that wait with the
/// next one last, and those that were visited.
#[verifier::ext_equal]
pub ghost struct Visit {
    pub counts: Seq<int>,
    pub stack: Seq<int>,
    pub order: Seq<int>,
}

/// Follows the edges of a row in turn. A node whose count meets its degree is stacked.
pub open spec fn follow(degree: Seq<int>, visit: Visit, row: Seq<int>) -> Visit
    decreases row.len(),
{
    if row.len() == 0 {
        visit
    } else {
        let front = follow(degree, visit, row.drop_last());
        let node = row.last();
        let count = front.counts[node] + 1;
        Visit {
            counts: front.counts.update(node, count),
            stack: if count == degree[node] {
                front.stack.push(node)
            } else {
                front.stack
            },
            order: front.order,
        }
    }
}

/// The last waiting node has its turn.
pub open spec fn turn(visit: Visit) -> Visit {
    Visit {
        counts: visit.counts,
        stack: visit.stack.drop_last(),
        order: visit.order.push(visit.stack.last()),
    }
}

/// The visit after `k` turns, or when nothing waits. It starts with the nodes of degree zero.
pub open spec fn visited(adj: Seq<Seq<int>>, degree: Seq<int>, k: nat) -> Visit
    decreases k,
{
    if k == 0 {
        Visit {
            counts: Seq::new(adj.len(), |v: int| 0),
            stack: select(|v: int| degree[v] == 0, adj.len() as int),
            order: Seq::empty(),
        }
    } else {
        let before = visited(adj, degree, (k - 1) as nat);
        if before.stack.len() == 0 {
            before
        } else {
            follow(degree, turn(before), adj[before.stack.last()])
        }
    }
}

/// The nodes in the order in which they are visited. A node whose degree is never met is left out.
pub open spec fn visit_order(adj: Seq<Seq<int>>, degree: Seq<int>) -> Seq<int> {
    visited(adj, degree, adj.len()).order
}

/// Which nodes are listed.
spec fn listed(order: Seq<int>, n: nat) -> Seq<bool> {
    Seq::new(n, |v: int| order.contains(v))
}

/// The nodes that were visited or wait: each once, and exactly those whose degree was met.
spec fn met(degree: Seq<int>, visit: Visit, n: nat) -> bool {
    &&& visit.counts.len() == n
    &&& (visit.order + visit.stack).no_duplicates()
    &&& forall|i: int| 0 <= i < visit.order.len() ==> 0 <= #[trigger] visit.order[i] < n
    &&& forall|i: int| 0 <= i < visit.stack.len() ==> 0 <= #[trigger] visit.stack[i] < n
    &&& forall|v: int|
        0 <= v < n ==> ((visit.order + visit.stack).contains(v) <==> #[trigger] visit.counts[v]
            >= degree[v])
}

/// The counts between two turns.
spec fn counted(adj: Seq<Seq<int>>, visit: Visit) -> bool {
    forall|v: int|
        0 <= v < adj.len() ==> #[trigger] visit.counts[v] == count_into(
            adj,
            listed(visit.order, adj.len()),
            v,
            adj.len() as int,
        )
}

/// The counts when the first `j` edges of `node` were followed.
spec fn counting(
    adj: Seq<Seq<int>>,
    done: Seq<bool>,
    node: int,
    j: int,
    counts: Seq<int>,
) -> bool {
    forall|v: int|
        0 <= v < adj.len() ==> #[trigger] counts[v] == count_into(adj, done, v, adj.len() as int)
            + occurrences(adj[node].take(j), v)
}

proof fn lemma_follow(
    adj: Seq<Seq<int>>,
    degree: Seq<int>,
    visit: Visit,
    done: Seq<bool>,
    node: int,
    j: int,
)
    requires
        in_range(adj),
        0 <= node < adj.len(),
        0 <= j <= adj[node].len(),
        forall|v: int| 0 <= v < adj.len() ==> 0 <= #[trigger] degree[v],
        met(degree, visit, adj.len()),
        counting(adj, done, node, 0, visit.counts),
    ensures
        met(degree, follow(degree, visit, adj[node].take(j)), adj.len()),
        counting(adj, done, node, j, follow(degree, visit, adj[node].take(j)).counts),
        follow(degree, visit, adj[node].take(j)).order == visit.order,
    decreases j,
{
    let row = adj[node].take(j);
    if j > 0 {
        lemma_follow(adj, degree, visit, done, node, j - 1);
        let shorter = adj[node].take(j - 1);
        assert(row.drop_last() =~= shorter);
        let s = row.last();
        assert(adj[node][j - 1] == s);
        let before = follow(degree, visit, shorter);
        let after = follow(degree, visit, row);
        let queue = before.order + before.stack;
        let longer = after.order + after.stack;
        assert(row =~= shorter.push(s));
        assert forall|v: int| 0 <= v < adj.len() implies #[trigger] after.counts[v] == count_into(
            adj,
            done,
            v,
            adj.len() as int,
        ) + occurrences(row, v) by {
            lemma_occurrences_push(shorter, s, v);
            assert(before.counts[v] == count_into(adj, done, v, adj.len() as int) + occurrences(
                shorter,
                v,
            ));
        }
        if after.counts[s] == degree[s] {
            assert(longer =~= queue.push(s));
            assert(before.counts[s] < degree[s]);
            assert(!queue.contains(s));
            assert forall|v: int| 0 <= v < adj.len() implies (longer.contains(v)
                <==> #[trigger] after.counts[v] >= degree[v]) by {
                assert(queue.contains(v) <==> before.counts[v] >= degree[v]);
                if queue.contains(v) {
                    let i = choose|i: int| 0 <= i < queue.len() && queue[i] == v;
                    assert(longer[i] == v);
                }
                if longer.contains(v) && v != s {
                    let i = choose|i: int| 0 <= i < longer.len() && longer[i] == v;
                    assert(queue[i] == v);
                }
                assert(longer[queue.len() as int] == s);
            }
        } else {
            assert forall|v: int| 0 <= v < adj.len() implies (longer.contains(v)
                <==> #[trigger] after.counts[v] >= degree[v]) by {
                assert(queue.contains(v) <==> before.counts[v] >= degree[v]);
            }
        }
    }
}

/// What a turn changes in the nodes that were visited or wait.
proof fn lemma_turn(adj: Seq<Seq<int>>, degree: Seq<int>, visit: Visit)
    requires
        met(degree, visit, adj.len()),
        counted(adj, visit),
        visit.stack.len() > 0,
    ensures
        met(degree, turn(visit), adj.len()),
        0 <= visit.stack.last() < adj.len(),
        !visit.order.contains(visit.stack.last()),
        visit.counts[visit.stack.last()] >= degree[visit.stack.last()],
        counting(
            adj,
            listed(visit.order, adj.len()),
            visit.stack.last(),
            0,
            turn(visit).counts,
        ),
        turn(visit).order.len() <= adj.len(),
{
    let node = visit.stack.last();
    let rest = visit.stack.drop_last();
    let queue = visit.order + visit.stack;
    let next = turn(visit);
    let at = visit.stack.len() - 1;
    assert(visit.stack[at] == node);
    assert(queue =~= visit.order + rest.push(node));
    assert(queue[visit.order.len() + at] == node);
    assert(queue.contains(node));
    assert(visit.counts[node] >= degree[node]);
    if visit.order.contains(node) {
        let i = choose|i: int| 0 <= i < visit.order.len() && visit.order[i] == node;
        assert(queue[i] == node);
    }
    lemma_rotate(visit.order, rest, node, queue);
    assert forall|i: int| 0 <= i < next.order.len() implies 0 <= #[trigger] next.order[i]
        < adj.len() by {
        if i < visit.order.len() {
            assert(next.order[i] == visit.order[i]);
        }
    }
    assert forall|i: int| 0 <= i < next.stack.len() implies 0 <= #[trigger] next.stack[i]
        < adj.len() by {
        assert(next.stack[i] == visit.stack[i]);
    }
    assert forall|v: int| 0 <= v < adj.len() implies ((next.order + next.stack).contains(v)
        <==> #[trigger] next.counts[v] >= degree[v]) by {
        assert(queue.contains(v) <==> visit.counts[v] >= degree[v]);
    }
    lemma_distinct_prefix(next.order, next.stack, adj.len() as int);
    assert(adj[node].take(0) =~= Seq::<int>::empty());
}

/// The counts are in order again when all edges of the node were followed.
proof fn lemma_counted(
    adj: Seq<Seq<int>>,
    order: Seq<int>,
    node: int,
    visit: Visit,
)
    requires
        0 <= node < adj.len(),
        !order.contains(node),
        visit.order == order.push(node),
        counting(adj, listed(order, adj.len()), node, adj[node].len() as int, visit.counts),
    ensures
        counted(adj, visit),
{
    let done = listed(order, adj.len());
    assert(adj[node].take(adj[node].len() as int) =~= adj[node]);
    assert(listed(visit.order, adj.len()) =~= done.update(node, true)) by {
        assert forall|v: int| 0 <= v < adj.len() implies listed(visit.order, adj.len())[v]
            == done.update(node, true)[v] by {
            if order.contains(v) {
                let i = choose|i: int| 0 <= i < order.len() && order[i] == v;
                assert(visit.order[i] == v);
            }
            if visit.order.contains(v) && v != node {
                let i = choose|i: int| 0 <= i < visit.order.len() && visit.order[i] == v;
                assert(order[i] == v);
            }
            assert(visit.order[order.len() as int] == node);
        }
    }
    assert forall|v: int| 0 <= v < adj.len() implies #[trigger] visit.counts[v] == count_into(
        adj,
        listed(visit.order, adj.len()),
        v,
        adj.len() as int,
    ) by {
        lemma_count_mark(adj, done, node, v, adj.len() as int);
    }
}

proof fn lemma_visited(adj: Seq<Seq<int>>, degree: Seq<int>, k: nat)
    requires
        in_range(adj),
        forall|v: int| 0 <= v < adj.len() ==> 0 <= #[trigger] degree[v],
    ensures
        met(degree, visited(adj, degree, k), adj.len()),
        counted(adj, visited(adj, degree, k)),
        visited(adj, degree, k).stack.len() == 0 || visited(adj, degree, k).order.len() == k,
    decreases k,
{
    let now = visited(adj, degree, k);
    if k == 0 {
        let keep = |v: int| degree[v] == 0;
        lemma_select(keep, adj.len() as int);
        assert(now.order + now.stack =~= now.stack);
        assert forall|i: int| 0 <= i < now.stack.len() implies 0 <= #[trigger] now.stack[i]
            < adj.len() by {
            assert(now.stack.contains(now.stack[i]));
        }
        assert forall|v: int| 0 <= v < adj.len() implies ((now.order + now.stack).contains(v)
            <==> #[trigger] now.counts[v] >= degree[v]) by {
            assert(now.stack.contains(v) <==> keep(v));
            assert(0 <= degree[v]);
        }
        assert forall|v: int| 0 <= v < adj.len() implies #[trigger] now.counts[v] == count_into(
            adj,
            listed(now.order, adj.len()),
            v,
            adj.len() as int,
        ) by {
            lemma_count_unmarked(adj, listed(now.order, adj.len()), v, adj.len() as int);
        }
    } else {
        let before = visited(adj, degree, (k - 1) as nat);
        lemma_visited(adj, degree, (k - 1) as nat);
        if before.stack.len() > 0 {
            let node = before.stack.last();
            let row = adj[node];
            lemma_turn(adj, degree, before);
            lemma_follow(
                adj,
                degree,
                turn(before),
                listed(before.order, adj.len()),
                node,
                row.len() as int,
            );
            assert(row.take(row.len() as int) =~= row);
            lemma_counted(adj, before.order, node, now);
        }
    }
}

/// With exact degrees, predecessors are visited first.
proof fn lemma_visited_first(adj: Seq<Seq<int>>, degree: Seq<int>, k: nat)
    requires
        in_range(adj),
        degree.len() == adj.len(),
        forall|v: int| 0 <= v < adj.len() ==> #[trigger] degree[v] == in_degree(adj, v),
    ensures
        predecessors_first(adj, visited(adj, degree, k).order),
    decreases k,
{
    if k > 0 {
        let before = visited(adj, degree, (k - 1) as nat);
        lemma_visited_first(adj, degree, (k - 1) as nat);
        lemma_visited(adj, degree, (k - 1) as nat);
        if before.stack.len() > 0 {
            let n = adj.len() as int;
            let node = before.stack.last();
            let done = listed(before.order, adj.len());
            lemma_turn(adj, degree, before);
            lemma_follow(adj, degree, turn(before), done, node, adj[node].len() as int);
            assert(adj[node].take(adj[node].len() as int) =~= adj[node]);
            let unused = lemma_count_against_degree(adj, done, node, n, 0);
            assert(before.counts[node] == count_into(adj, done, node, n));
            lemma_ready(adj, done, before.order, degree, node, n);
            lemma_append(adj, before.order, node);
        }
    }
}

/// What holds of the order of a visit: nodes of the graph, each once. Where there are no cycles and
/// the degrees are exact, it lists all nodes, predecessors first.
pub proof fn lemma_visit_order(adj: Seq<Seq<int>>, degree: Seq<int>)
    requires
        in_range(adj),
        degree.len() == adj.len(),
        forall|v: int| 0 <= v < adj.len() ==> 0 <= #[trigger] degree[v],
    ensures
        visit_order(adj, degree).no_duplicates(),
        forall|i: int|
            0 <= i < visit_order(adj, degree).len() ==> 0 <= #[trigger] visit_order(adj, degree)[i]
                < adj.len(),
        acyclic(edges_of(adj)) && (forall|v: int|
            0 <= v < adj.len() ==> #[trigger] degree[v] == in_degree(adj, v)) ==> visit_order(
            adj,
            degree,
        ).len() == adj.len() && predecessors_first(adj, visit_order(adj, degree)),
{
    let n = adj.len() as int;
    let last = visited(adj, degree, adj.len());
    let order = last.order;
    let queue = order + last.stack;
    lemma_visited(adj, degree, adj.len());
    lemma_distinct_prefix(order, last.stack, n);
    if last.stack.len() > 0 {
        assert forall|i: int| 0 <= i < queue.len() implies 0 <= #[trigger] queue[i] < n by {
            if i < order.len() {
                assert(queue[i] == order[i]);
            } else {
                assert(queue[i] == last.stack[i - order.len()]);
            }
        }
        lemma_distinct_bounded(queue, n);
    }
    assert(queue =~= order);
    if acyclic(edges_of(adj)) && forall|v: int|
        0 <= v < adj.len() ==> #[trigger] degree[v] == in_degree(adj, v) {
        lemma_visited_first(adj, degree, adj.len());
        let done = listed(order, adj.len());
        assert forall|v: int| 0 <= v < n implies (#[trigger] order.contains(v) || stuck(
            adj,
            degree,
            order,
            v,
        )) by {
            if !order.contains(v) {
                assert(last.counts[v] < degree[v]);
                let w = lemma_count_against_degree(adj, done, v, n, 0);
                assert(edges_of(adj).contains((w, v)));
                assert(!done[w]);
            }
        }
        lemma_peeled_all(adj, degree, order);
    }
}

/// What is left of a machine counter that starts at `degree` and was counted down `count` times.
spec fn left_over(degree: int, count: int) -> int {
    if count <= degree {
        degree - count
    } else {
        degree - count + usize::MAX + 1
    }
}

/// Visits the nodes of a graph. A degree that is too small wraps around when it is counted down
/// once more, so that the node is not stacked again.
pub fn visit_nodes(succ: &[Vec<usize>], degree: &Vec<usize>) -> (order: Vec<usize>)
    requires
        degree@.len() == succ@.len(),
        in_range(rows(succ@)),
        forall|v: int|
            0 <= v < succ@.len() ==> #[trigger] in_degree(rows(succ@), v) <= usize::MAX,
    ensures
        ints(order@) == visit_order(rows(succ@), ints(degree@)),
{
    let n: usize = succ.len();
    let ghost adj = rows(succ@);
    let ghost start = ints(degree@);
    let mut left: Vec<usize> = Vec::new();
    let mut stack: Vec<usize> = Vec::new();
    while left.len() < n
        invariant
            left@.len() <= n,
            n == degree@.len(),
            start == ints(degree@),
            forall|v: int| 0 <= v < left@.len() ==> #[trigger] left@[v] == degree@[v],
            ints(stack@) == select(|v: int| start[v] == 0, left@.len() as int),
        decreases n - left@.len(),
    {
        let node: usize = left.len();
        let ghost before = stack@;
        if degree[node] == 0 {
            stack.push(node);
        }
        proof {
            assert(start[node as int] == degree@[node as int]);
            if degree@[node as int] == 0 {
                assert(ints(stack@) =~= ints(before).push(node as int));
            }
        }
        left.push(degree[node]);
    }
    let mut order: Vec<usize> = Vec::new();
    let ghost mut visit = visited(adj, start, 0);
    proof {
        assert(ints(order@) =~= Seq::<int>::empty());
        assert(ints(stack@) =~= visit.stack);
    }
    while stack.len() > 0
        invariant
            n == succ@.len(),
            n == left@.len(),
            adj == rows(succ@),
            in_range(adj),
            start.len() == n,
            forall|v: int| 0 <= v < n ==> 0 <= #[trigger] start[v] <= usize::MAX,
            forall|v: int| 0 <= v < n ==> #[trigger] in_degree(adj, v) <= usize::MAX,
            visit == visited(adj, start, order@.len()),
            ints(order@) == visit.order,
            ints(stack@) == visit.stack,
            forall|v: int|
                0 <= v < n ==> #[trigger] left@[v] == left_over(start[v], visit.counts[v]),
            order@.len() <= n,
        decreases n - order@.len(),
    {
        let ghost before = visit;
        let ghost turned = turn(visit);
        let ghost done = listed(visit.order, adj.len());
        let ghost held = stack@;
        proof {
            lemma_visited(adj, start, order@.len());
            lemma_turn(adj, start, visit);
            assert(ints(held).last() == held.last());
        }
        let node: usize = stack[stack.len() - 1];
        stack.pop();
        order.push(node);
        let ghost row = adj[node as int];
        proof {
            assert(ints(stack@) =~= turned.stack);
            assert(ints(order@) =~= turned.order);
            assert(row.take(0) =~= Seq::<int>::empty());
        }
        let mut edge: usize = 0;
        while edge < succ[node].len()
            invariant
                n == succ@.len(),
                n == left@.len(),
                adj == rows(succ@),
                in_range(adj),
                start.len() == n,
                node < n,
                row == adj[node as int],
                row.len() == succ@[node as int]@.len(),
                edge <= row.len(),
                done.len() == n,
                !done[node as int],
                forall|v: int| 0 <= v < n ==> 0 <= #[trigger] start[v] <= usize::MAX,
                forall|v: int| 0 <= v < n ==> #[trigger] in_degree(adj, v) <= usize::MAX,
                met(start, turned, adj.len()),
                counting(adj, done, node as int, 0, turned.counts),
                ints(stack@) == follow(start, turned, row.take(edge as int)).stack,
                forall|v: int|
                    0 <= v < n ==> #[trigger] left@[v] == left_over(
                        start[v],
                        follow(start, turned, row.take(edge as int)).counts[v],
                    ),
            decreases row.len() - edge,
        {
            let successor: usize = succ[node][edge];
            let ghost now = follow(start, turned, row.take(edge as int));
            let ghost next = follow(start, turned, row.take(edge + 1));
            let ghost kept = left@;
            let ghost waiting = stack@;
            proof {
                assert(row[edge as int] == successor);
                assert(row.take(edge + 1).drop_last() =~= row.take(edge as int));
                assert(row.take(edge + 1).last() == successor);
                lemma_follow(adj, start, turned, done, node as int, edge as int);
                lemma_follow(adj, start, turned, done, node as int, edge + 1);
                lemma_spare(adj, done, node as int, successor as int, edge + 1);
                assert(next.counts[successor as int] <= in_degree(adj, successor as int));
                assert(next.counts[successor as int] == now.counts[successor as int] + 1);
                assert(now.counts[successor as int] >= 0);
            }
            left.set(successor, left[successor].wrapping_sub(1));
            if left[successor] == 0 {
                stack.push(successor);
                proof {
                    assert(ints(stack@) =~= ints(waiting).push(successor as int));
                }
            }
            proof {
                assert forall|v: int| 0 <= v < n implies #[trigger] left@[v] == left_over(
                    start[v],
                    next.counts[v],
                ) by {
                    if v != successor {
                        assert(left@[v] == kept[v]);
                    }
                }
            }
            edge = edge + 1;
        }
        proof {
            assert(row.take(edge as int) =~= row);
            lemma_follow(adj, start, turned, done, node as int, row.len() as int);
            visit = follow(start, turned, row);
        }
    }
    proof {
        lemma_rest(adj, start, order@.len(), n as nat);
    }
    order
}

/// When nothing waits, nothing changes.
proof fn lemma_rest(adj: Seq<Seq<int>>, degree: Seq<int>, j: nat, k: nat)
    requires
        j <= k,
        visited(adj, degree, j).stack.len() == 0,
    ensures
        visited(adj, degree, k) == visited(adj, degree, j),
    decreases k,
{
    if j < k {
        lemma_rest(adj, degree, j, (k - 1) as nat);
    }
}

} // verus!
