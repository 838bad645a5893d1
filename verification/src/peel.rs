//! Topological peeling: repeatedly removes a node whose incoming edges have all been removed.

use vstd::prelude::*;

use crate::digraph::{
    acyclic, behind_cycle, count_into, edges_of, hop, in_degree, in_range, ints, is_walk,
    lemma_backwards_closed_has_cycle, lemma_count_against_degree, lemma_count_mark,
    lemma_count_unmarked, lemma_distinct_bounded, lemma_distinct_exhaustive,
    lemma_occurrences_prefix, lemma_occurrences_push, occurrences, reaches, rows,
};

verus! {

/// Every predecessor of a listed node is listed before it.
pub open spec fn predecessors_first(adj: Seq<Seq<int>>, order: Seq<int>) -> bool {
    forall|p: int, u: int|
        0 <= p < order.len() && #[trigger] edges_of(adj).contains((u, order[p])) ==> order.take(
            p,
        ).contains(u)
}

/// What is left when `order` has been peeled off: nodes with an undercounted degree, or with a
/// predecessor that is left too.
pub open spec fn stuck(adj: Seq<Seq<int>>, degree: Seq<int>, order: Seq<int>, v: int) -> bool {
    ||| degree[v] > in_degree(adj, v)
    ||| exists|u: int|
        0 <= u < adj.len() && !order.contains(u) && #[trigger] edges_of(adj).contains((u, v))
}

/// Peels nodes off the graph, last freed first, starting from those of degree zero.
///
/// `degree` counts the incoming edges of each node and ends at zero exactly for the peeled ones.
pub fn peel(succ: &[Vec<usize>], degree: &mut Vec<usize>) -> (order: Vec<usize>)
    requires
        old(degree)@.len() == succ@.len(),
        in_range(rows(succ@)),
        forall|v: int|
            0 <= v < succ@.len() ==> in_degree(rows(succ@), v) <= #[trigger] old(degree)@[v],
    ensures
        ints(order@).no_duplicates(),
        forall|i: int| 0 <= i < order@.len() ==> #[trigger] order@[i] < succ@.len(),
        final(degree)@.len() == succ@.len(),
        forall|v: int|
            0 <= v < succ@.len() ==> (#[trigger] final(degree)@[v] == 0 <==> ints(
                order@,
            ).contains(v)),
        predecessors_first(rows(succ@), ints(order@)),
        forall|v: int|
            0 <= v < succ@.len() && #[trigger] ints(order@).contains(v) ==> old(degree)@[v]
                == in_degree(rows(succ@), v),
        forall|v: int|
            0 <= v < succ@.len() ==> (#[trigger] ints(order@).contains(v) || stuck(
                rows(succ@),
                ints(old(degree)@),
                ints(order@),
                v,
            )),
{
    let n: usize = succ.len();
    let ghost adj = rows(succ@);
    let ghost start = degree@;
    let mut stack: Vec<usize> = Vec::new();
    let mut index: usize = 0;
    while index < n
        invariant
            index <= n,
            n == degree@.len(),
            forall|i: int| 0 <= i < stack@.len() ==> #[trigger] stack@[i] < index,
            forall|i: int, j: int| 0 <= i < j < stack@.len() ==> stack@[i] < stack@[j],
            forall|v: int|
                0 <= v < index ==> (#[trigger] degree@[v] == 0 <==> ints(stack@).contains(v)),
        decreases n - index,
    {
        let ghost before = stack@;
        if degree[index] == 0 {
            stack.push(index);
        }
        proof {
            assert forall|v: int| 0 <= v < index + 1 implies (#[trigger] degree@[v] == 0 <==> ints(
                stack@,
            ).contains(v)) by {
                if ints(before).contains(v) {
                    let i = choose|i: int| 0 <= i < before.len() && ints(before)[i] == v;
                    assert(ints(stack@)[i] == v);
                }
                if ints(stack@).contains(v) {
                    let i = choose|i: int| 0 <= i < stack@.len() && ints(stack@)[i] == v;
                    if i < before.len() {
                        assert(ints(before)[i] == v);
                    }
                }
                if v == index && degree@[v] == 0 {
                    assert(ints(stack@)[before.len() as int] == v);
                }
            }
        }
        index = index + 1;
    }
    let mut order: Vec<usize> = Vec::new();
    let ghost mut done: Seq<bool> = Seq::new(n as nat, |i: int| false);
    proof {
        assert(ints(order@) + ints(stack@) =~= ints(stack@));
        assert forall|v: int| 0 <= v < n implies #[trigger] degree@[v] + count_into(
            adj,
            done,
            v,
            n as int,
        ) == start[v] by {
            lemma_count_unmarked(adj, done, v, n as int);
        }
    }
    while stack.len() > 0
        invariant
            n == succ@.len(),
            n == degree@.len(),
            n == start.len(),
            adj == rows(succ@),
            in_range(adj),
            done.len() == n,
            forall|v: int| 0 <= v < n ==> in_degree(adj, v) <= #[trigger] start[v],
            forall|v: int|
                0 <= v < n ==> #[trigger] degree@[v] + count_into(adj, done, v, n as int)
                    == start[v],
            (ints(order@) + ints(stack@)).no_duplicates(),
            forall|i: int| 0 <= i < order@.len() ==> #[trigger] order@[i] < n,
            forall|i: int| 0 <= i < stack@.len() ==> #[trigger] stack@[i] < n,
            forall|v: int|
                0 <= v < n ==> (#[trigger] degree@[v] == 0 <==> (ints(order@) + ints(
                    stack@,
                )).contains(v)),
            forall|v: int| 0 <= v < n ==> (#[trigger] done[v] <==> ints(order@).contains(v)),
            predecessors_first(adj, ints(order@)),
            forall|v: int|
                0 <= v < n && #[trigger] ints(order@).contains(v) ==> start[v] == in_degree(adj, v),
        decreases n - order@.len(),
    {
        let ghost before = order@;
        let ghost pending = ints(order@) + ints(stack@);
        let node: usize = stack[stack.len() - 1];
        stack.pop();
        order.push(node);
        let ghost row = adj[node as int];
        proof {
            assert(pending =~= ints(before) + ints(stack@).push(node as int));
            lemma_rotate(ints(before), ints(stack@), node as int, pending);
            assert(pending[(before.len() + stack@.len()) as int] == node);
            assert(degree@[node as int] == 0);
            assert(!ints(before).contains(node as int)) by {
                if ints(before).contains(node as int) {
                    let i = choose|i: int| 0 <= i < before.len() && ints(before)[i] == node;
                    assert(pending[i] == node);
                }
            }
            lemma_ready(adj, done, ints(before), ints(start), node as int, n as int);
            lemma_append(adj, ints(before), node as int);
            assert(ints(order@) =~= ints(before).push(node as int));
            assert forall|v: int|
                0 <= v < n && #[trigger] ints(order@).contains(v) implies start[v] == in_degree(
                adj,
                v,
            ) by {
                if v != node {
                    let i = choose|i: int| 0 <= i < order@.len() && ints(order@)[i] == v;
                    assert(ints(before)[i] == v);
                    assert(ints(before).contains(v));
                }
            }
            lemma_distinct_prefix(ints(order@), ints(stack@), n as int);
        }
        let mut edge: usize = 0;
        proof {
            assert(row.take(0) =~= Seq::<int>::empty());
        }
        while edge < succ[node as usize].len()
            invariant
                n == succ@.len(),
                n == degree@.len(),
                n == start.len(),
                node < n,
                adj == rows(succ@),
                row == adj[node as int],
                in_range(adj),
                done.len() == n,
                !done[node as int],
                edge <= succ@[node as int]@.len(),
                forall|v: int| 0 <= v < n ==> in_degree(adj, v) <= #[trigger] start[v],
                forall|v: int|
                    0 <= v < n ==> #[trigger] degree@[v] + count_into(adj, done, v, n as int)
                        + occurrences(row.take(edge as int), v) == start[v],
                (ints(order@) + ints(stack@)).no_duplicates(),
                forall|i: int| 0 <= i < stack@.len() ==> #[trigger] stack@[i] < n,
                forall|v: int|
                    0 <= v < n ==> (#[trigger] degree@[v] == 0 <==> (ints(order@) + ints(
                        stack@,
                    )).contains(v)),
            decreases succ@[node as int]@.len() - edge,
        {
            let successor: usize = succ[node][edge];
            let ghost held = degree@;
            let ghost queued = ints(order@) + ints(stack@);
            proof {
                assert(row[edge as int] == successor);
                assert(row.take(edge + 1) =~= row.take(edge as int).push(successor as int));
                assert forall|v: int| 0 <= v < n implies occurrences(
                    row.take(edge + 1),
                    v,
                ) == #[trigger] occurrences(row.take(edge as int), v) + (if v == successor {
                    1nat
                } else {
                    0nat
                }) by {
                    lemma_occurrences_push(row.take(edge as int), successor as int, v);
                }
                lemma_spare(adj, done, node as int, successor as int, edge + 1);
            }
            degree.set(successor, degree[successor] - 1);
            if degree[successor] == 0 {
                stack.push(successor);
                proof {
                    assert(ints(order@) + ints(stack@) =~= queued.push(successor as int));
                    assert(held[successor as int] != 0);
                    assert(!queued.contains(successor as int));
                    assert forall|v: int| 0 <= v < n implies (#[trigger] degree@[v] == 0 <==> (ints(
                        order@,
                    ) + ints(stack@)).contains(v)) by {
                        if queued.contains(v) {
                            let i = choose|i: int| 0 <= i < queued.len() && queued[i] == v;
                            assert(queued.push(successor as int)[i] == v);
                        }
                        if v == successor {
                            assert(queued.push(successor as int)[queued.len() as int] == v);
                        }
                        if v != successor {
                            assert(held[v] == degree@[v]);
                        }
                    }
                }
            } else {
                proof {
                    assert forall|v: int| 0 <= v < n implies (#[trigger] degree@[v] == 0 <==> (ints(
                        order@,
                    ) + ints(stack@)).contains(v)) by {
                        if v != successor {
                            assert(held[v] == degree@[v]);
                        } else {
                            assert(held[v] != 0);
                        }
                    }
                }
            }
            proof {
                assert forall|v: int| 0 <= v < n implies #[trigger] degree@[v] + count_into(
                    adj,
                    done,
                    v,
                    n as int,
                ) + occurrences(row.take(edge + 1), v) == start[v] by {
                    assert(held[v] + count_into(adj, done, v, n as int) + occurrences(
                        row.take(edge as int),
                        v,
                    ) == start[v]);
                }
            }
            edge = edge + 1;
        }
        proof {
            assert(row.take(edge as int) =~= row);
            let marked = done.update(node as int, true);
            assert forall|v: int| 0 <= v < n implies #[trigger] degree@[v] + count_into(
                adj,
                marked,
                v,
                n as int,
            ) == start[v] by {
                lemma_count_mark(adj, done, node as int, v, n as int);
            }
            assert forall|v: int| 0 <= v < n implies (#[trigger] marked[v] <==> ints(
                order@,
            ).contains(v)) by {
                if ints(before).contains(v) {
                    let i = choose|i: int| 0 <= i < before.len() && ints(before)[i] == v;
                    assert(ints(order@)[i] == v);
                }
                if ints(order@).contains(v) && v != node {
                    let i = choose|i: int| 0 <= i < order@.len() && ints(order@)[i] == v;
                    assert(ints(before)[i] == v);
                }
                assert(ints(order@)[before.len() as int] == node);
                assert(v != node ==> (done[v] == marked[v]));
            }
            done = marked;
        }
    }
    proof {
        assert(ints(order@) + ints(stack@) =~= ints(order@));
        assert forall|v: int| 0 <= v < n implies (#[trigger] ints(order@).contains(v) || stuck(
            adj,
            ints(start),
            ints(order@),
            v,
        )) by {
            if !ints(order@).contains(v) {
                let w = lemma_count_against_degree(adj, done, v, n as int, 0);
                assert(degree@[v] != 0);
                if start[v] == in_degree(adj, v) {
                    assert(edges_of(adj).contains((w, v)));
                    assert(!done[w]);
                }
            }
        }
    }
    order
}

pub proof fn lemma_rotate(front: Seq<int>, rest: Seq<int>, node: int, pending: Seq<int>)
    requires
        pending == front + rest.push(node),
        pending.no_duplicates(),
    ensures
        (front.push(node) + rest).no_duplicates(),
        forall|v: int| #[trigger]
            pending.contains(v) <==> (front.push(node) + rest).contains(v),
{
    let turned = front.push(node) + rest;
    let at = |i: int|
        if i < front.len() {
            i
        } else if i == front.len() {
            pending.len() - 1
        } else {
            i - 1
        };
    assert forall|i: int| 0 <= i < turned.len() implies #[trigger] turned[i] == pending[at(i)] by {}
    assert forall|v: int| #[trigger] pending.contains(v) implies turned.contains(v) by {
        let i = choose|i: int| 0 <= i < pending.len() && pending[i] == v;
        let back = if i < front.len() {
            i
        } else if i == pending.len() - 1 {
            front.len() as int
        } else {
            i + 1
        };
        assert(turned[back] == v);
    }
    assert forall|v: int| turned.contains(v) implies #[trigger] pending.contains(v) by {
        let i = choose|i: int| 0 <= i < turned.len() && turned[i] == v;
        assert(pending[at(i)] == v);
    }
}

/// A node of remaining degree zero has all its predecessors peeled.
pub proof fn lemma_ready(
    adj: Seq<Seq<int>>,
    done: Seq<bool>,
    order: Seq<int>,
    start: Seq<int>,
    node: int,
    n: int,
)
    requires
        n == adj.len(),
        n == start.len(),
        n == done.len(),
        0 <= node < n,
        in_degree(adj, node) <= start[node],
        count_into(adj, done, node, n) == start[node],
        forall|v: int| 0 <= v < n ==> (#[trigger] done[v] <==> order.contains(v)),
    ensures
        start[node] == in_degree(adj, node),
        forall|u: int| #[trigger] edges_of(adj).contains((u, node)) ==> order.contains(u),
{
    let unused = lemma_count_against_degree(adj, done, node, n, 0);
    assert forall|u: int| #[trigger] edges_of(adj).contains((u, node)) implies order.contains(
        u,
    ) by {
        let unused = lemma_count_against_degree(adj, done, node, n, u);
        assert(done[u]);
    }
}

pub proof fn lemma_append(adj: Seq<Seq<int>>, order: Seq<int>, node: int)
    requires
        predecessors_first(adj, order),
        forall|u: int| #[trigger] edges_of(adj).contains((u, node)) ==> order.contains(u),
    ensures
        predecessors_first(adj, order.push(node)),
{
    let next = order.push(node);
    assert forall|p: int, u: int|
        0 <= p < next.len() && #[trigger] edges_of(adj).contains((u, next[p])) implies next.take(
        p,
    ).contains(u) by {
        assert(next.take(p) =~= order.take(p));
        if p < order.len() {
            assert(edges_of(adj).contains((u, order[p])));
        } else {
            assert(order.take(p) =~= order);
        }
    }
}

pub proof fn lemma_distinct_prefix(front: Seq<int>, rest: Seq<int>, n: int)
    requires
        n >= 0,
        (front + rest).no_duplicates(),
        forall|i: int| 0 <= i < front.len() ==> 0 <= #[trigger] front[i] < n,
    ensures
        front.no_duplicates(),
        front.len() <= n,
{
    assert forall|i: int, j: int| 0 <= i < front.len() && 0 <= j < front.len() && i != j implies front[i]
        != front[j] by {
        assert((front + rest)[i] == front[i]);
        assert((front + rest)[j] == front[j]);
    }
    lemma_distinct_bounded(front, n);
}

/// Edges still to be removed keep the remaining degree of their target positive.
pub proof fn lemma_spare(adj: Seq<Seq<int>>, done: Seq<bool>, node: int, v: int, taken: int)
    requires
        done.len() == adj.len(),
        0 <= node < adj.len(),
        !done[node],
        0 <= taken <= adj[node].len(),
    ensures
        count_into(adj, done, v, adj.len() as int) + occurrences(adj[node].take(taken), v)
            <= in_degree(adj, v),
{
    lemma_count_mark(adj, done, node, v, adj.len() as int);
    let unused = lemma_count_against_degree(
        adj,
        done.update(node, true),
        v,
        adj.len() as int,
        0,
    );
    lemma_occurrences_prefix(adj[node], taken, v);
}

/// An order that lists predecessors first rules out a walk back to a listed node.
pub proof fn lemma_listed_not_behind_cycle(adj: Seq<Seq<int>>, order: Seq<int>, v: int)
    requires
        predecessors_first(adj, order),
        order.no_duplicates(),
        order.contains(v),
    ensures
        !behind_cycle(edges_of(adj), v),
{
    let edges = edges_of(adj);
    if behind_cycle(edges, v) {
        let c = choose|c: int| #[trigger] reaches(edges, c, c) && (c == v || reaches(edges, c, v));
        let p = choose|p: int| 0 <= p < order.len() && order[p] == v;
        let q = if c == v {
            p
        } else {
            lemma_upstream_earlier(adj, order, c, p)
        };
        let r = lemma_upstream_earlier(adj, order, c, q);
    }
}

/// Whatever reaches the node listed at `p` is listed before it.
pub proof fn lemma_upstream_earlier(adj: Seq<Seq<int>>, order: Seq<int>, u: int, p: int) -> (q: int)
    requires
        predecessors_first(adj, order),
        order.no_duplicates(),
        0 <= p < order.len(),
        reaches(edges_of(adj), u, order[p]),
    ensures
        0 <= q < p,
        order[q] == u,
{
    let edges = edges_of(adj);
    let path = choose|path: Seq<int>| #[trigger]
        is_walk(edges, path) && path.len() >= 2 && path[0] == u && path.last() == order[p];
    lemma_walk_earlier(adj, order, path, p)
}

proof fn lemma_walk_earlier(adj: Seq<Seq<int>>, order: Seq<int>, path: Seq<int>, p: int) -> (q: int)
    requires
        predecessors_first(adj, order),
        order.no_duplicates(),
        0 <= p < order.len(),
        is_walk(edges_of(adj), path),
        path.len() >= 2,
        path.last() == order[p],
    ensures
        0 <= q < p,
        order[q] == path[0],
    decreases path.len(),
{
    let edges = edges_of(adj);
    let last = path.len() - 2;
    assert(edges.contains(hop(path, last)));
    assert(edges.contains((path[last], order[p])));
    let q = choose|q: int| 0 <= q < order.take(p).len() && order.take(p)[q] == path[last];
    assert(order[q] == path[last]);
    if path.len() == 2 {
        q
    } else {
        let shorter = path.drop_last();
        assert forall|i: int| 0 <= i < shorter.len() - 1 implies edges.contains(
            #[trigger] hop(shorter, i),
        ) by {
            assert(hop(shorter, i) == hop(path, i));
        }
        lemma_walk_earlier(adj, order, shorter, q)
    }
}

/// With exact degrees, what cannot be peeled is exactly what lies behind a cycle.
pub proof fn lemma_unpeeled_behind_cycle(
    adj: Seq<Seq<int>>,
    degree: Seq<int>,
    order: Seq<int>,
    v: int,
)
    requires
        degree.len() == adj.len(),
        forall|w: int| 0 <= w < adj.len() ==> #[trigger] degree[w] == in_degree(adj, w),
        forall|w: int|
            0 <= w < adj.len() ==> (#[trigger] order.contains(w) || stuck(adj, degree, order, w)),
        0 <= v < adj.len(),
        !order.contains(v),
    ensures
        behind_cycle(edges_of(adj), v),
{
    let region = Set::new(|w: int| 0 <= w < adj.len() && !order.contains(w));
    let edges = edges_of(adj);
    assert forall|w: int| #[trigger] region.contains(w) implies exists|u: int|
        region.contains(u) && edges.contains((u, w)) by {
        assert(order.contains(w) || stuck(adj, degree, order, w));
        assert(degree[w] == in_degree(adj, w));
        let u = choose|u: int|
            0 <= u < adj.len() && !order.contains(u) && #[trigger] edges.contains((u, w));
        assert(region.contains(u));
    }
    lemma_backwards_closed_has_cycle(edges, region, adj.len() as int, v);
}

/// Peeling takes every node exactly when the degrees are exact and the graph has no cycle.
pub proof fn lemma_peeled_all(adj: Seq<Seq<int>>, degree: Seq<int>, order: Seq<int>)
    requires
        degree.len() == adj.len(),
        in_range(adj),
        order.no_duplicates(),
        forall|i: int| 0 <= i < order.len() ==> 0 <= #[trigger] order[i] < adj.len(),
        predecessors_first(adj, order),
        forall|v: int|
            0 <= v < adj.len() && #[trigger] order.contains(v) ==> degree[v] == in_degree(adj, v),
        forall|v: int|
            0 <= v < adj.len() ==> (#[trigger] order.contains(v) || stuck(adj, degree, order, v)),
    ensures
        order.len() == adj.len() <==> (acyclic(edges_of(adj)) && forall|v: int|
            0 <= v < adj.len() ==> #[trigger] degree[v] == in_degree(adj, v)),
{
    let n = adj.len() as int;
    let edges = edges_of(adj);
    if order.len() == n {
        assert forall|v: int| 0 <= v < n implies #[trigger] degree[v] == in_degree(adj, v) by {
            lemma_distinct_exhaustive(order, n, v);
        }
        assert forall|v: int| !#[trigger] reaches(edges, v, v) by {
            if reaches(edges, v, v) {
                let path = choose|path: Seq<int>| #[trigger]
                    is_walk(edges, path) && path.len() >= 2 && path[0] == v && path.last() == v;
                assert(edges.contains(hop(path, 0)));
                lemma_distinct_exhaustive(order, n, v);
                lemma_listed_not_behind_cycle(adj, order, v);
            }
        }
    }
    if acyclic(edges) && forall|v: int| 0 <= v < n ==> #[trigger] degree[v] == in_degree(adj, v) {
        assert forall|v: int| 0 <= v < n implies #[trigger] order.contains(v) by {
            if !order.contains(v) {
                lemma_unpeeled_behind_cycle(adj, degree, order, v);
                let c = choose|c: int| #[trigger]
                    reaches(edges, c, c) && (c == v || reaches(edges, c, v));
            }
        }
        lemma_distinct_bounded(order, n);
        if order.len() < n {
            lemma_missing(order, n);
        }
    }
}

/// Fewer than `n` values leave one of `0..n` out.
proof fn lemma_missing(values: Seq<int>, n: int)
    requires
        values.len() < n,
    ensures
        exists|v: int| 0 <= v < n && !values.contains(v),
{
    if forall|v: int| 0 <= v < n ==> values.contains(v) {
        let all = vstd::set_lib::set_int_range(0, n);
        vstd::set_lib::lemma_int_range(0, n);
        vstd::seq_lib::seq_to_set_is_finite(values);
        assert(all.subset_of(values.to_set()));
        vstd::set_lib::lemma_len_subset(all, values.to_set());
        values.lemma_cardinality_of_set();
    }
}

} // verus!
