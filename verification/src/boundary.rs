//! Decoder layer boundaries found from the structure between attention nodes.

use vstd::prelude::*;

use crate::digraph::{
    edges_of, hop, in_range, is_walk, lemma_edge_reaches, lemma_reaches_transitive, reaches, rows,
};
use crate::text::same_text;

verus! {

/// The edges whose target lies in `lo..=hi`.
pub open spec fn edges_into(adj: Seq<Seq<int>>, lo: int, hi: int) -> Set<(int, int)> {
    edges_of(adj).filter(|e: (int, int)| lo <= e.1 <= hi)
}

/// Unmarked nodes below `k`.
spec fn unmarked(marks: Seq<bool>, k: int) -> nat
    decreases k,
{
    if k <= 0 {
        0
    } else {
        unmarked(marks, k - 1) + (if marks[k - 1] {
            0nat
        } else {
            1nat
        })
    }
}

proof fn lemma_unmarked_update(marks: Seq<bool>, at: int, k: int)
    requires
        0 <= at < marks.len(),
        0 <= k <= marks.len(),
        !marks[at],
    ensures
        unmarked(marks.update(at, true), k) == unmarked(marks, k) - (if at < k {
            1int
        } else {
            0
        }),
    decreases k,
{
    if k > 0 {
        lemma_unmarked_update(marks, at, k - 1);
    }
}

/// Marks the nodes that walks from `start` lead to, through targets in `lo..=hi` only.
fn reachable_within(
    lists: &[Vec<usize>],
    start: usize,
    lo: usize,
    hi: usize,
) -> (marks: Vec<bool>)
    requires
        in_range(rows(lists@)),
        start < lists@.len(),
    ensures
        marks@.len() == lists@.len(),
        forall|v: int|
            0 <= v < lists@.len() ==> (#[trigger] marks@[v] <==> reaches(
                edges_into(rows(lists@), lo as int, hi as int),
                start as int,
                v,
            )),
{
    let n: usize = lists.len();
    let ghost adj = rows(lists@);
    let ghost edges = edges_into(adj, lo as int, hi as int);
    let mut marks: Vec<bool> = vec![false; n];
    let mut stack: Vec<usize> = Vec::new();
    stack.push(start);
    assert(stack@[0] == start);
    while stack.len() > 0
        invariant
            n == lists@.len(),
            n == marks@.len(),
            start < n,
            adj == rows(lists@),
            edges == edges_into(adj, lo as int, hi as int),
            in_range(adj),
            forall|i: int|
                0 <= i < stack@.len() ==> #[trigger] stack@[i] < n && (stack@[i] == start
                    || marks@[stack@[i] as int]),
            forall|v: int|
                0 <= v < n && #[trigger] marks@[v] ==> reaches(edges, start as int, v),
            forall|u: int, v: int|
                0 <= u < n && (u == start || marks@[u]) && #[trigger] edges.contains((u, v))
                    && !stack@.contains(u as usize) ==> marks@[v],
        decreases unmarked(marks@, n as int), stack@.len(),
    {
        let ghost held = stack@;
        let index: usize = stack[stack.len() - 1];
        stack.pop();
        let ghost row = adj[index as int];
        let ghost opening = marks@;
        let mut edge: usize = 0;
        proof {
            assert forall|u: int, v: int|
                0 <= u < n && (u == start || marks@[u]) && #[trigger] edges.contains((u, v))
                    && !stack@.contains(u as usize) && u != index implies marks@[v] by {
                if held.contains(u as usize) {
                    let i = choose|i: int| 0 <= i < held.len() && held[i] == u as usize;
                    assert(stack@[i] == u as usize);
                }
            }
        }
        while edge < lists[index].len()
            invariant
                n == lists@.len(),
                n == marks@.len(),
                opening.len() == n,
                start < n,
                index < n,
                index == start || opening[index as int],
                adj == rows(lists@),
                edges == edges_into(adj, lo as int, hi as int),
                in_range(adj),
                row == adj[index as int],
                row.len() == lists@[index as int]@.len(),
                edge <= row.len(),
                forall|i: int|
                    0 <= i < stack@.len() ==> #[trigger] stack@[i] < n && (stack@[i] == start
                        || marks@[stack@[i] as int]),
                forall|v: int| 0 <= v < n && opening[v] ==> #[trigger] marks@[v],
                forall|v: int|
                    0 <= v < n && #[trigger] marks@[v] ==> reaches(edges, start as int, v),
                forall|u: int, v: int|
                    0 <= u < n && (u == start || marks@[u]) && #[trigger] edges.contains((u, v))
                        && !stack@.contains(u as usize) && u != index ==> marks@[v],
                forall|t: int|
                    0 <= t < edge && lo <= #[trigger] row[t] <= hi ==> marks@[row[t]],
                unmarked(marks@, n as int) < unmarked(opening, n as int) || (unmarked(
                    marks@,
                    n as int,
                ) == unmarked(opening, n as int) && stack@.len() < held.len()),
            decreases row.len() - edge,
        {
            let next: usize = lists[index][edge];
            assert(adj[index as int][edge as int] == next);
            assert(row[edge as int] == next);
            if lo <= next && next <= hi && !marks[next] {
                let ghost before = marks@;
                let ghost pending = stack@;
                proof {
                    assert(edges_of(adj).contains((index as int, next as int)));
                    assert(edges.contains((index as int, next as int)));
                    lemma_edge_reaches(edges, index as int, next as int);
                    if index != start {
                        assert(marks@[index as int]);
                        lemma_reaches_transitive(edges, start as int, index as int, next as int);
                    }
                    lemma_unmarked_update(marks@, next as int, n as int);
                }
                marks.set(next, true);
                stack.push(next);
                proof {
                    assert(marks@ =~= before.update(next as int, true));
                    assert forall|u: int, v: int|
                        0 <= u < n && (u == start || marks@[u]) && #[trigger] edges.contains((u, v))
                            && !stack@.contains(u as usize) && u != index implies marks@[v] by {
                        assert(stack@[pending.len() as int] == next);
                        if pending.contains(u as usize) {
                            let i = choose|i: int|
                                0 <= i < pending.len() && pending[i] == u as usize;
                            assert(stack@[i] == u as usize);
                        }
                        assert(u != next);
                    }
                }
            }
            edge = edge + 1;
        }
        proof {
            assert forall|u: int, v: int|
                0 <= u < n && (u == start || marks@[u]) && #[trigger] edges.contains((u, v))
                    && !stack@.contains(u as usize) implies marks@[v] by {
                if u == index {
                    assert(edges_of(adj).contains((u, v)));
                    let t = choose|t: int| 0 <= t < row.len() && row[t] == v;
                    assert(lo <= row[t] <= hi);
                }
            }
        }
    }
    proof {
        assert forall|v: int| 0 <= v < n && reaches(edges, start as int, v) implies #[trigger] marks@[v] by {
            let path = choose|path: Seq<int>| #[trigger]
                is_walk(edges, path) && path.len() >= 2 && path[0] == start && path.last() == v;
            lemma_closed(adj, edges, marks@, start as int, path, path.len() - 1);
        }
    }
    marks
}

proof fn lemma_closed(
    adj: Seq<Seq<int>>,
    edges: Set<(int, int)>,
    marks: Seq<bool>,
    start: int,
    path: Seq<int>,
    i: int,
)
    requires
        in_range(adj),
        marks.len() == adj.len(),
        edges.subset_of(edges_of(adj)),
        0 <= start < adj.len(),
        forall|u: int, v: int|
            0 <= u < adj.len() && (u == start || marks[u]) && #[trigger] edges.contains((u, v))
                ==> marks[v],
        is_walk(edges, path),
        path[0] == start,
        1 <= i < path.len(),
    ensures
        0 <= path[i] < adj.len(),
        marks[path[i]],
    decreases i,
{
    if i > 1 {
        lemma_closed(adj, edges, marks, start, path, i - 1);
    }
    let e = hop(path, i - 1);
    assert(edges.contains(e));
    assert(edges_of(adj).contains(e));
    let j = choose|j: int| 0 <= j < adj[e.0].len() && adj[e.0][j] == e.1;
    assert(0 <= adj[e.0][j] < adj.len());
    assert(edges.contains((path[i - 1], path[i])));
}

/// What the search for boundaries looks at.
pub struct Skeleton {
    pub op_types: Seq<Seq<char>>,
    pub successors: Seq<Seq<int>>,
    pub predecessors: Seq<Seq<int>>,
}

impl Skeleton {
    /// `index` is a residual addition between two anchors: reached from the first without passing
    /// beyond the second, and reaching the second without passing before the first.
    pub open spec fn closes_layer(self, current: int, next: int, index: int) -> bool {
        &&& current < index < next
        &&& self.op_types[index] == "Add"@
        &&& reaches(edges_into(self.successors, 0, next), current, index)
        &&& reaches(
            edges_into(self.predecessors, current, self.predecessors.len() - 1),
            next,
            index,
        )
    }

    /// `index` is the last residual addition between two anchors.
    pub open spec fn is_boundary(self, current: int, next: int, index: int) -> bool {
        self.closes_layer(current, next, index) && forall|other: int| #[trigger]
            self.closes_layer(current, next, other) ==> other <= index
    }

    /// Some residual addition lies between two anchors.
    pub open spec fn has_boundary(self, current: int, next: int) -> bool {
        exists|index: int| self.closes_layer(current, next, index)
    }
}

/// The views of a list of strings.
pub open spec fn texts(list: Seq<String>) -> Seq<Seq<char>> {
    Seq::new(list.len(), |i: int| list[i]@)
}

/// The last residual addition between two neighbouring anchors.
fn find_boundary(
    op_types: &[String],
    successors: &[Vec<usize>],
    predecessors: &[Vec<usize>],
    current: usize,
    next: usize,
) -> (boundary: Option<usize>)
    requires
        successors@.len() == op_types@.len(),
        predecessors@.len() == op_types@.len(),
        in_range(rows(successors@)),
        in_range(rows(predecessors@)),
        current < op_types@.len(),
        next < op_types@.len(),
    ensures
        ({
            let skeleton = Skeleton {
                op_types: texts(op_types@),
                successors: rows(successors@),
                predecessors: rows(predecessors@),
            };
            match boundary {
                Some(index) => skeleton.is_boundary(current as int, next as int, index as int),
                None => !skeleton.has_boundary(current as int, next as int),
            }
        }),
{
    let ghost skeleton = Skeleton {
        op_types: texts(op_types@),
        successors: rows(successors@),
        predecessors: rows(predecessors@),
    };
    let downstream: Vec<bool> = reachable_within(successors, current, 0, next);
    let upstream: Vec<bool> = reachable_within(predecessors, next, current, op_types.len() - 1);
    let mut index: usize = next;
    while index > 0 && index - 1 > current
        invariant
            index <= next,
            current < op_types@.len(),
            next < op_types@.len(),
            downstream@.len() == op_types@.len(),
            upstream@.len() == op_types@.len(),
            skeleton == (Skeleton {
                op_types: texts(op_types@),
                successors: rows(successors@),
                predecessors: rows(predecessors@),
            }),
            skeleton.predecessors.len() == op_types@.len(),
            forall|v: int|
                0 <= v < op_types@.len() ==> (#[trigger] downstream@[v] <==> reaches(
                    edges_into(skeleton.successors, 0, next as int),
                    current as int,
                    v,
                )),
            forall|v: int|
                0 <= v < op_types@.len() ==> (#[trigger] upstream@[v] <==> reaches(
                    edges_into(
                        skeleton.predecessors,
                        current as int,
                        skeleton.predecessors.len() - 1,
                    ),
                    next as int,
                    v,
                )),
            forall|other: int|
                other >= index ==> !#[trigger] skeleton.closes_layer(
                    current as int,
                    next as int,
                    other,
                ),
        decreases index,
    {
        index = index - 1;
        if downstream[index] && upstream[index] && same_text(op_types[index].as_str(), "Add") {
            assert(skeleton.closes_layer(current as int, next as int, index as int));
            return Some(index);
        }
    }
    None
}

/// The boundary between every two neighbouring anchors. There is none to give for fewer than two
/// anchors, or if some pair has no residual addition between it.
pub fn infer_boundary_indices(
    op_types: &[String],
    successors: &[Vec<usize>],
    predecessors: &[Vec<usize>],
    attention_anchors: &[usize],
) -> (boundaries: Option<Vec<usize>>)
    requires
        successors@.len() == op_types@.len(),
        predecessors@.len() == op_types@.len(),
        in_range(rows(successors@)),
        in_range(rows(predecessors@)),
        forall|i: int|
            0 <= i < attention_anchors@.len() ==> #[trigger] attention_anchors@[i]
                < op_types@.len(),
    ensures
        ({
            let skeleton = Skeleton {
                op_types: texts(op_types@),
                successors: rows(successors@),
                predecessors: rows(predecessors@),
            };
            let anchors = attention_anchors@;
            match boundaries {
                Some(list) => {
                    &&& anchors.len() >= 2
                    &&& list@.len() == anchors.len() - 1
                    &&& forall|i: int|
                        0 <= i < list@.len() ==> skeleton.is_boundary(
                            anchors[i] as int,
                            anchors[i + 1] as int,
                            (#[trigger] list@[i]) as int,
                        )
                },
                None => anchors.len() < 2 || exists|i: int|
                    0 <= i < anchors.len() - 1 && !skeleton.has_boundary(
                        (#[trigger] anchors[i]) as int,
                        anchors[i + 1] as int,
                    ),
            }
        }),
{
    if attention_anchors.len() < 2 {
        return None;
    }
    let ghost skeleton = Skeleton {
        op_types: texts(op_types@),
        successors: rows(successors@),
        predecessors: rows(predecessors@),
    };
    let mut list: Vec<usize> = Vec::new();
    while list.len() < attention_anchors.len() - 1
        invariant
            2 <= attention_anchors@.len(),
            list@.len() < attention_anchors@.len(),
            successors@.len() == op_types@.len(),
            predecessors@.len() == op_types@.len(),
            in_range(rows(successors@)),
            in_range(rows(predecessors@)),
            forall|i: int|
                0 <= i < attention_anchors@.len() ==> #[trigger] attention_anchors@[i]
                    < op_types@.len(),
            skeleton == (Skeleton {
                op_types: texts(op_types@),
                successors: rows(successors@),
                predecessors: rows(predecessors@),
            }),
            forall|i: int|
                0 <= i < list@.len() ==> skeleton.is_boundary(
                    attention_anchors@[i] as int,
                    attention_anchors@[i + 1] as int,
                    (#[trigger] list@[i]) as int,
                ),
        decreases attention_anchors@.len() - list@.len(),
    {
        let at: usize = list.len();
        let current: usize = attention_anchors[at];
        let next: usize = attention_anchors[at + 1];
        match find_boundary(op_types, successors, predecessors, current, next) {
            Some(index) => {
                list.push(index);
            },
            None => {
                return None;
            },
        }
    }
    Some(list)
}

} // verus!
