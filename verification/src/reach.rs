//! Reachability rows computed against a node order.

use vstd::prelude::*;

use crate::bitset::{bit_empty, bit_or_into, bit_set, bit_width, has_bit, word_count};
use crate::digraph::{edges_of, hop, in_range, ints, is_walk, reaches, rows};
use crate::peel::predecessors_first;

verus! {

/// The rank rises at every step of `path` but possibly the last.
pub open spec fn rising(rank: Seq<int>, path: Seq<int>) -> bool {
    forall|i: int|
        0 <= i < path.len() - 2 ==> rank[(#[trigger] hop(path, i)).0] < rank[hop(path, i).1]
}

/// Some walk whose rank rises at every step but possibly the last leads from `from` to `to`.
pub open spec fn reaches_rising(
    edges: Set<(int, int)>,
    rank: Seq<int>,
    from: int,
    to: int,
) -> bool {
    exists|path: Seq<int>| #[trigger]
        is_walk(edges, path) && path.len() >= 2 && path[0] == from && path.last() == to && rising(
            rank,
            path,
        )
}

/// The position of every node in `order`.
pub open spec fn ranks(order: Seq<int>) -> Seq<int> {
    Seq::new(order.len(), |v: int| order.index_of(v))
}

/// What `successor` contributes to the row of `node`.
spec fn through(
    edges: Set<(int, int)>,
    rank: Seq<int>,
    node: int,
    successor: int,
    to: int,
) -> bool {
    successor == to || (rank[node] < rank[successor] && reaches_rising(edges, rank, successor, to))
}

proof fn lemma_first_step(edges: Set<(int, int)>, rank: Seq<int>, from: int, to: int)
    ensures
        reaches_rising(edges, rank, from, to) <==> exists|s: int| #[trigger]
            edges.contains((from, s)) && through(edges, rank, from, s, to),
{
    if reaches_rising(edges, rank, from, to) {
        let path = choose|path: Seq<int>| #[trigger]
            is_walk(edges, path) && path.len() >= 2 && path[0] == from && path.last() == to
                && rising(rank, path);
        let s = path[1];
        assert(hop(path, 0) == (from, s));
        assert(edges.contains((from, s)));
        if path.len() > 2 {
            let rest = path.skip(1);
            assert forall|i: int| 0 <= i < rest.len() - 1 implies edges.contains(
                #[trigger] hop(rest, i),
            ) by {
                assert(hop(rest, i) == hop(path, i + 1));
            }
            assert(is_walk(edges, rest));
            assert forall|i: int| 0 <= i < rest.len() - 2 implies rank[(#[trigger] hop(
                rest,
                i,
            )).0] < rank[hop(rest, i).1] by {
                assert(hop(rest, i) == hop(path, i + 1));
            }
            assert(rising(rank, rest));
        }
        assert(through(edges, rank, from, s, to));
    }
    if exists|s: int| #[trigger] edges.contains((from, s)) && through(edges, rank, from, s, to) {
        let s = choose|s: int| #[trigger]
            edges.contains((from, s)) && through(edges, rank, from, s, to);
        if s == to {
            let path = seq![from, to];
            assert(hop(path, 0) == (from, to));
            assert(is_walk(edges, path));
        } else {
            let rest = choose|path: Seq<int>| #[trigger]
                is_walk(edges, path) && path.len() >= 2 && path[0] == s && path.last() == to
                    && rising(rank, path);
            let path = seq![from] + rest;
            assert forall|i: int| 0 <= i < path.len() - 1 implies edges.contains(
                #[trigger] hop(path, i),
            ) by {
                if i > 0 {
                    assert(hop(path, i) == hop(rest, i - 1));
                } else {
                    assert(hop(path, i) == (from, s));
                }
            }
            assert(is_walk(edges, path));
            assert forall|i: int| 0 <= i < path.len() - 2 implies rank[(#[trigger] hop(
                path,
                i,
            )).0] < rank[hop(path, i).1] by {
                if i > 0 {
                    assert(hop(path, i) == hop(rest, i - 1));
                } else {
                    assert(hop(path, i) == (from, s));
                }
            }
            assert(rising(rank, path));
        }
    }
}

/// Where every edge goes forward in the order, every walk rises.
pub proof fn lemma_rising_everywhere(adj: Seq<Seq<int>>, order: Seq<int>, a: int, b: int)
    requires
        in_range(adj),
        order.len() == adj.len(),
        order.no_duplicates(),
        forall|v: int| 0 <= v < adj.len() ==> #[trigger] order.contains(v),
        predecessors_first(adj, order),
    ensures
        reaches_rising(edges_of(adj), ranks(order), a, b) <==> reaches(edges_of(adj), a, b),
{
    let edges = edges_of(adj);
    let rank = ranks(order);
    if reaches(edges, a, b) {
        let path = choose|path: Seq<int>| #[trigger]
            is_walk(edges, path) && path.len() >= 2 && path[0] == a && path.last() == b;
        assert forall|i: int| 0 <= i < path.len() - 2 implies rank[(#[trigger] hop(path, i)).0]
            < rank[hop(path, i).1] by {
            let u = path[i];
            let v = path[i + 1];
            assert(edges.contains(hop(path, i)));
            let j = choose|j: int| 0 <= j < adj[u].len() && adj[u][j] == v;
            assert(adj[u][j] == v);
            assert(order.contains(v) && order.contains(u));
            let p = order.index_of(v);
            assert(edges.contains((u, order[p])));
            let q = choose|q: int| 0 <= q < order.take(p).len() && order.take(p)[q] == u;
            assert(order[q] == u);
            assert(order[order.index_of(u)] == u);
        }
        assert(rising(rank, path));
    }
}

/// For every node, the set of nodes that a walk rising in `order` leads to.
pub fn reach_rows(succ: &[Vec<usize>], order: &Vec<usize>) -> (reach: Vec<Vec<u64>>)
    requires
        in_range(rows(succ@)),
        order@.len() == succ@.len(),
        ints(order@).no_duplicates(),
        forall|i: int| 0 <= i < order@.len() ==> #[trigger] order@[i] < succ@.len(),
    ensures
        reach@.len() == succ@.len(),
        forall|a: int|
            0 <= a < succ@.len() ==> (#[trigger] reach@[a])@.len() == word_count(
                succ@.len() as int,
            ),
        forall|a: int, b: int|
            0 <= a < succ@.len() && 0 <= b < bit_width(succ@.len() as int) ==> (#[trigger] has_bit(reach@[a]@, b)
                <==> reaches_rising(edges_of(rows(succ@)), ranks(ints(order@)), a, b)),
{
    let n: usize = succ.len();
    let ghost adj = rows(succ@);
    let ghost edges = edges_of(adj);
    let ghost rank = ranks(ints(order@));
    let mut reach: Vec<Vec<u64>> = Vec::new();
    while reach.len() < n
        invariant
            reach@.len() <= n,
            forall|a: int|
                0 <= a < reach@.len() ==> (#[trigger] reach@[a])@.len() == word_count(n as int),
            forall|a: int, b: int|
                0 <= a < reach@.len() && 0 <= b < bit_width(n as int) ==> !(#[trigger] has_bit(reach@[a]@, b)),
        decreases n - reach@.len(),
    {
        reach.push(bit_empty(n));
    }
    proof {
        assert forall|i: int| 0 <= i < n implies rank[#[trigger] order@[i] as int] == i by {
            let v = order@[i] as int;
            assert(ints(order@)[i] == v);
            assert(ints(order@).contains(v));
            let at = ints(order@).index_of(v);
            assert(ints(order@)[at] == v);
        }
        assert forall|v: int| 0 <= v < n implies 0 <= #[trigger] rank[v] < n && order@[rank[v]] == v by {
            crate::digraph::lemma_distinct_exhaustive(ints(order@), n as int, v);
            let at = ints(order@).index_of(v);
            assert(ints(order@)[at] == v);
        }
    }
    let mut left: usize = n;
    while left > 0
        invariant
            left <= n,
            n == succ@.len(),
            n == order@.len(),
            n == reach@.len(),
            n == rank.len(),
            adj == rows(succ@),
            edges == edges_of(adj),
            in_range(adj),
            forall|i: int| 0 <= i < n ==> #[trigger] order@[i] < n,
            forall|i: int| 0 <= i < n ==> rank[#[trigger] order@[i] as int] == i,
            forall|v: int| 0 <= v < n ==> 0 <= #[trigger] rank[v] < n && order@[rank[v]] == v,
            forall|a: int| 0 <= a < n ==> (#[trigger] reach@[a])@.len() == word_count(n as int),
            forall|a: int, b: int|
                0 <= a < n && 0 <= b < bit_width(n as int) ==> (#[trigger] has_bit(reach@[a]@, b) <==> (rank[a]
                    >= left && reaches_rising(edges, rank, a, b))),
        decreases left,
    {
        left = left - 1;
        let node: usize = order[left];
        let ghost row = adj[node as int];
        let mut edge: usize = 0;
        while edge < succ[node].len()
            invariant
                left < n,
                n == succ@.len(),
                n == order@.len(),
                n == reach@.len(),
                n == rank.len(),
                node < n,
                rank[node as int] == left,
                adj == rows(succ@),
                edges == edges_of(adj),
                in_range(adj),
                row == adj[node as int],
                edge <= row.len(),
                row.len() == succ@[node as int]@.len(),
                forall|a: int|
                    0 <= a < n ==> (#[trigger] reach@[a])@.len() == word_count(n as int),
                forall|a: int, b: int|
                    0 <= a < n && 0 <= b < bit_width(n as int) && a != node ==> (#[trigger] has_bit(reach@[a]@, b)
                        <==> (rank[a] > left && reaches_rising(edges, rank, a, b))),
                forall|b: int|
                    0 <= b < bit_width(n as int) ==> (#[trigger] has_bit(reach@[node as int]@, b) <==> exists|t: int|
                        0 <= t < edge && through(edges, rank, node as int, #[trigger] row[t], b)),
                forall|a: int|
                    0 <= a < n && a != node ==> #[trigger] rank[a] != left,
            decreases row.len() - edge,
        {
            let successor: usize = succ[node][edge];
            let ghost before = reach@;
            proof {
                assert(row[edge as int] == successor);
                assert(adj[node as int][edge as int] < adj.len());
            }
            bit_set(&mut reach[node], successor);
            let tail: Vec<u64> = reach[successor].clone();
            let ghost middle = reach@;
            proof {
                assert(tail@ =~= reach@[successor as int]@);
            }
            bit_or_into(&mut reach[node], &tail);
            proof {
                assert forall|b: int| 0 <= b < bit_width(n as int) implies (#[trigger] has_bit(
                    reach@[node as int]@,
                    b,
                ) <==> exists|t: int|
                    0 <= t < edge + 1 && through(edges, rank, node as int, #[trigger] row[t], b)) by {
                    let mine = has_bit(before[node as int]@, b);
                    assert(has_bit(middle[node as int]@, b) <==> (b == successor || mine));
                    assert(has_bit(reach@[node as int]@, b) <==> (has_bit(middle[node as int]@, b)
                        || has_bit(tail@, b)));
                    if successor != node {
                        assert(middle[successor as int] == before[successor as int]);
                        assert(has_bit(before[successor as int]@, b) <==> (rank[successor as int]
                            > left && reaches_rising(edges, rank, successor as int, b)));
                        assert(has_bit(reach@[node as int]@, b) <==> (mine || through(
                            edges,
                            rank,
                            node as int,
                            successor as int,
                            b,
                        )));
                    } else {
                        assert(has_bit(reach@[node as int]@, b) <==> (mine || through(
                            edges,
                            rank,
                            node as int,
                            successor as int,
                            b,
                        )));
                    }
                    if mine {
                        let t = choose|t: int|
                            0 <= t < edge && through(
                                edges,
                                rank,
                                node as int,
                                #[trigger] row[t],
                                b,
                            );
                        assert(through(edges, rank, node as int, row[t], b));
                    }
                    if exists|t: int|
                        0 <= t < edge + 1 && through(edges, rank, node as int, #[trigger] row[t], b) {
                        let t = choose|t: int|
                            0 <= t < edge + 1 && through(
                                edges,
                                rank,
                                node as int,
                                #[trigger] row[t],
                                b,
                            );
                        if t < edge {
                            assert(mine);
                        }
                    }
                }
                assert forall|a: int, b: int| 0 <= a < n && 0 <= b < bit_width(n as int) && a != node implies (
                #[trigger] has_bit(reach@[a]@, b) <==> (rank[a] > left && reaches_rising(
                    edges,
                    rank,
                    a,
                    b,
                ))) by {
                    assert(reach@[a] == before[a]);
                }
            }
            edge = edge + 1;
        }
        proof {
            assert forall|a: int, b: int| 0 <= a < n && 0 <= b < bit_width(n as int) implies (#[trigger] has_bit(
                reach@[a]@,
                b,
            ) <==> (rank[a] >= left && reaches_rising(edges, rank, a, b))) by {
                if a == node {
                    lemma_first_step(edges, rank, a, b);
                    if reaches_rising(edges, rank, a, b) {
                        let s = choose|s: int| #[trigger]
                            edges.contains((a, s)) && through(edges, rank, a, s, b);
                        let t = choose|t: int| 0 <= t < row.len() && row[t] == s;
                        assert(through(edges, rank, node as int, row[t], b));
                    }
                    if has_bit(reach@[a]@, b) {
                        let t = choose|t: int|
                            0 <= t < edge && through(
                                edges,
                                rank,
                                node as int,
                                #[trigger] row[t],
                                b,
                            );
                        assert(edges.contains((a, row[t])));
                    }
                }
            }
        }
    }
    reach
}

} // verus!
