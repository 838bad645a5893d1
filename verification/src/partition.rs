//! Partitioning of an ordered graph into clusters of nodes that run together.

use std::collections::{HashMap, HashSet};

use vstd::prelude::*;

use crate::boundary::{infer_boundary_indices, texts, Skeleton};
use crate::cluster::{cluster_edges, edge_clusters, lengths, Colours};
use crate::cluster_laws::law_clusters_partition_supported;
use crate::digraph::{edges_of, in_degree, ints, reaches, rows};
use crate::ir::{ir_state, node_parts, IrState, NodeId, ValueId};
use crate::quotient::in_cluster;
use crate::registry::CompilePartitionClass;
use crate::topology::{
    backward_rows, forward_rows, id_ints, is_listing, lemma_degree_bound, lemma_rows, linked,
    located, positions_of, predecessor_rows, successor_rows,
};

verus! {

broadcast use vstd::std_specs::hash::group_hash_axioms;

/// The end of the run of nodes like `start` that has reached `end`.
pub open spec fn run_end(colours: Colours, start: int, end: int) -> int
    decreases colours.supported.len() - end,
{
    if end < colours.supported.len() && colours.alike(start, end) {
        run_end(colours, start, end + 1)
    } else {
        end
    }
}

/// The runs of alike neighbours from `start` on, as half-open ranges.
pub open spec fn runs(colours: Colours, start: int) -> Seq<(int, int)>
    decreases colours.supported.len() - start,
{
    if start >= colours.supported.len() {
        Seq::empty()
    } else if !colours.supported[start] {
        runs(colours, start + 1)
    } else {
        proof {
            lemma_run_end(colours, start, start + 1);
        }
        let end = run_end(colours, start, start + 1);
        seq![(start, end)] + runs(colours, end)
    }
}

/// A run ends where a node differs from its first, and not before.
pub proof fn lemma_run_end(colours: Colours, start: int, end: int)
    requires
        end <= colours.supported.len(),
    ensures
        end <= run_end(colours, start, end) <= colours.supported.len(),
        forall|i: int| end <= i < run_end(colours, start, end) ==> #[trigger] colours.alike(start, i),
        run_end(colours, start, end) < colours.supported.len() ==> !colours.alike(
            start,
            run_end(colours, start, end),
        ),
    decreases colours.supported.len() - end,
{
    if end < colours.supported.len() && colours.alike(start, end) {
        lemma_run_end(colours, start, end + 1);
    }
}

/// The nodes of each run.
pub open spec fn run_nodes(order: Seq<u32>, ranges: Seq<(int, int)>) -> Seq<Seq<u32>> {
    Seq::new(ranges.len(), |i: int| order.subrange(ranges[i].0, ranges[i].1))
}

/// The views of nested vectors.
pub open spec fn id_rows(lists: Seq<Vec<u32>>) -> Seq<Seq<u32>> {
    Seq::new(lists.len(), |i: int| lists[i]@)
}

/// Groups neighbours in the order that can run here and carry the same colours.
pub fn build_contiguous_clusters(
    order: &[NodeId],
    supported: &[bool],
    float64: &[bool],
    compile_class: &[CompilePartitionClass],
) -> (clusters: Vec<Vec<NodeId>>)
    requires
        supported@.len() == order@.len(),
        float64@.len() == order@.len(),
        compile_class@.len() == order@.len(),
    ensures
        id_rows(clusters@) == run_nodes(
            order@,
            runs(
                Colours { supported: supported@, float64: float64@, class: compile_class@ },
                0,
            ),
        ),
{
    let n: usize = order.len();
    let ghost colours = Colours {
        supported: supported@,
        float64: float64@,
        class: compile_class@,
    };
    let mut clusters: Vec<Vec<u32>> = Vec::new();
    let mut start: usize = 0;
    proof {
        assert(id_rows(clusters@) + run_nodes(order@, runs(colours, 0)) =~= run_nodes(
            order@,
            runs(colours, 0),
        ));
    }
    while start < n
        invariant
            start <= n,
            n == order@.len(),
            n == supported@.len(),
            n == float64@.len(),
            n == compile_class@.len(),
            colours == (Colours { supported: supported@, float64: float64@, class: compile_class@ }),
            id_rows(clusters@) + run_nodes(order@, runs(colours, start as int)) == run_nodes(
                order@,
                runs(colours, 0),
            ),
        decreases n - start,
    {
        if !supported[start] {
            start = start + 1;
        } else {
            let mut end: usize = start + 1;
            let mut cluster: Vec<u32> = Vec::new();
            cluster.push(order[start]);
            while end < n && supported[end] && float64[end] == float64[start] && compile_class[end]
                == compile_class[start]
                invariant
                    start < end <= n,
                    n == order@.len(),
                    n == supported@.len(),
                    n == float64@.len(),
                    n == compile_class@.len(),
                    colours == (Colours {
                        supported: supported@,
                        float64: float64@,
                        class: compile_class@,
                    }),
                    supported@[start as int],
                    run_end(colours, start as int, start + 1) == run_end(
                        colours,
                        start as int,
                        end as int,
                    ),
                    cluster@ == order@.subrange(start as int, end as int),
                decreases n - end,
            {
                cluster.push(order[end]);
                end = end + 1;
            }
            let ghost before = id_rows(clusters@);
            clusters.push(cluster);
            proof {
                let from = start as int;
                let to = end as int;
                assert(run_end(colours, from, from + 1) == to);
                assert(runs(colours, from) == seq![(from, to)] + runs(colours, to));
                assert(id_rows(clusters@) =~= before.push(order@.subrange(from, to)));
                assert(run_nodes(order@, runs(colours, from)) =~= seq![order@.subrange(from, to)]
                    + run_nodes(order@, runs(colours, to)));
                assert(id_rows(clusters@) + run_nodes(order@, runs(colours, to)) =~= before
                    + run_nodes(order@, runs(colours, from)));
            }
            start = end;
        }
    }
    proof {
        assert(id_rows(clusters@) + run_nodes(order@, runs(colours, start as int)) =~= id_rows(
            clusters@,
        ));
    }
    clusters
}

/// Runs are disjoint, ascending, uniform in both colours, and cannot be extended to either side;
/// together they cover exactly the supported positions.
pub proof fn law_runs(colours: Colours, start: int)
    requires
        0 <= start <= colours.supported.len(),
    ensures
        forall|i: int|
            0 <= i < runs(colours, start).len() ==> start <= (#[trigger] runs(colours, start)[i]).0
                < runs(colours, start)[i].1 <= colours.supported.len(),
        forall|i: int, j: int|
            0 <= i < j < runs(colours, start).len() ==> (#[trigger] runs(colours, start)[i]).1 <= (
            #[trigger] runs(colours, start)[j]).0,
        forall|i: int, a: int, b: int|
            #![trigger runs(colours, start)[i], colours.supported[a], colours.supported[b]]
            0 <= i < runs(colours, start).len() && runs(colours, start)[i].0 <= a < runs(
                colours,
                start,
            )[i].1 && runs(colours, start)[i].0 <= b < runs(colours, start)[i].1
                ==> colours.alike(a, b),
        forall|i: int|
            0 <= i < runs(colours, start).len() && (#[trigger] runs(colours, start)[i]).1
                < colours.supported.len() ==> !colours.alike(
                runs(colours, start)[i].0,
                runs(colours, start)[i].1,
            ),
        forall|v: int|
            start <= v < colours.supported.len() ==> (#[trigger] colours.supported[v] <==> exists|
                i: int,
            |
                0 <= i < runs(colours, start).len() && (#[trigger] runs(colours, start)[i]).0 <= v
                    < runs(colours, start)[i].1),
    decreases colours.supported.len() - start,
{
    let all = runs(colours, start);
    if start < colours.supported.len() {
        if !colours.supported[start] {
            law_runs(colours, start + 1);
            let rest = runs(colours, start + 1);
            assert forall|i: int, a: int, b: int|
                #![trigger all[i], colours.supported[a], colours.supported[b]]
                0 <= i < all.len() && all[i].0 <= a < all[i].1 && all[i].0 <= b < all[i].1 implies colours.alike(
                a,
                b,
            ) by {
                assert(rest[i] == all[i]);
            }
            assert forall|v: int| start <= v < colours.supported.len() implies (
            #[trigger] colours.supported[v] <==> exists|i: int|
                0 <= i < all.len() && (#[trigger] all[i]).0 <= v < all[i].1) by {
                if v > start {
                    assert(colours.supported[v] <==> exists|i: int|
                        0 <= i < runs(colours, start + 1).len() && (#[trigger] runs(
                            colours,
                            start + 1,
                        )[i]).0 <= v < runs(colours, start + 1)[i].1);
                }
            }
        } else {
            lemma_run_end(colours, start, start + 1);
            let end = run_end(colours, start, start + 1);
            let rest = runs(colours, end);
            law_runs(colours, end);
            assert(all[0] == (start, end));
            assert forall|i: int| 1 <= i < all.len() implies #[trigger] all[i] == rest[i - 1] by {}
            assert forall|i: int, a: int, b: int|
                #![trigger all[i], colours.supported[a], colours.supported[b]]
                0 <= i < all.len() && all[i].0 <= a < all[i].1 && all[i].0 <= b < all[i].1 implies colours.alike(
                a,
                b,
            ) by {
                if i == 0 {
                    assert(a == start || colours.alike(start, a));
                    assert(b == start || colours.alike(start, b));
                } else {
                    let r = rest[i - 1];
                    assert(colours.supported[a] || !colours.supported[a]);
                }
            }
            assert forall|v: int| start <= v < colours.supported.len() implies (
            #[trigger] colours.supported[v] <==> exists|i: int|
                0 <= i < all.len() && (#[trigger] all[i]).0 <= v < all[i].1) by {
                if v < end {
                    assert(v == start || colours.alike(start, v));
                    assert(all[0].0 <= v < all[0].1);
                } else {
                    if colours.supported[v] {
                        let i = choose|i: int|
                            0 <= i < rest.len() && (#[trigger] rest[i]).0 <= v < rest[i].1;
                        assert(all[i + 1] == rest[i]);
                    }
                    if exists|i: int| 0 <= i < all.len() && (#[trigger] all[i]).0 <= v < all[i].1 {
                        let i = choose|i: int|
                            0 <= i < all.len() && (#[trigger] all[i]).0 <= v < all[i].1;
                        assert(rest[i - 1] == all[i]);
                    }
                }
            }
        }
    }
}

/// The nodes of a run are alike.
pub proof fn lemma_run_alike(colours: Colours, i: int, a: int, b: int)
    requires
        0 <= i < runs(colours, 0).len(),
        runs(colours, 0)[i].0 <= a < runs(colours, 0)[i].1,
        runs(colours, 0)[i].0 <= b < runs(colours, 0)[i].1,
    ensures
        0 <= a < colours.supported.len(),
        0 <= b < colours.supported.len(),
        colours.alike(a, b),
{
    law_runs(colours, 0);
    let range = runs(colours, 0)[i];
    assert(colours.supported[a] && colours.supported[b]);
}

/// In an order that lists producers first, a contiguous run holds every node between its members.
pub proof fn law_runs_convex(adj: Seq<Seq<int>>, lo: int, hi: int, a: int, w: int, b: int)
    requires
        forall|u: int, v: int| #[trigger] edges_of(adj).contains((u, v)) ==> u < v,
        lo <= a < hi,
        lo <= b < hi,
        reaches(edges_of(adj), a, w),
        reaches(edges_of(adj), w, b),
    ensures
        lo <= w < hi,
{
    lemma_forward(edges_of(adj), a, w);
    lemma_forward(edges_of(adj), w, b);
}

/// Where every edge rises, so does every walk.
pub proof fn lemma_forward(edges: Set<(int, int)>, a: int, b: int)
    requires
        forall|u: int, v: int| #[trigger] edges.contains((u, v)) ==> u < v,
        reaches(edges, a, b),
    ensures
        a < b,
{
    let path = choose|path: Seq<int>| #[trigger]
        crate::digraph::is_walk(edges, path) && path.len() >= 2 && path[0] == a
            && path.last() == b;
    lemma_forward_walk(edges, path, path.len() - 1);
}

proof fn lemma_forward_walk(edges: Set<(int, int)>, path: Seq<int>, i: int)
    requires
        forall|u: int, v: int| #[trigger] edges.contains((u, v)) ==> u < v,
        crate::digraph::is_walk(edges, path),
        1 <= i < path.len(),
    ensures
        path[0] < path[i],
    decreases i,
{
    if i > 1 {
        lemma_forward_walk(edges, path, i - 1);
    }
    let e = crate::digraph::hop(path, i - 1);
    assert(edges.contains(e));
    assert(edges.contains((path[i - 1], path[i])));
}

/// The nodes at the positions of each cluster.
pub open spec fn cluster_nodes(order: Seq<u32>, clusters: Seq<Seq<int>>) -> Seq<Seq<u32>> {
    Seq::new(
        clusters.len(),
        |c: int| Seq::new(clusters[c].len(), |i: int| order[clusters[c][i]]),
    )
}

/// The lengths of mathematical rows.
pub open spec fn row_lengths(lists: Seq<Seq<int>>) -> Seq<int> {
    Seq::new(lists.len(), |v: int| lists[v].len() as int)
}

/// The convex clusters of the listed nodes of a graph.
pub open spec fn convex_clusters(
    state: IrState,
    order: Seq<u32>,
    colours: Colours,
) -> Seq<Seq<u32>> {
    cluster_nodes(
        order,
        edge_clusters(
            colours,
            forward_rows(state, order),
            row_lengths(backward_rows(state, order)),
        ),
    )
}

/// Groups supported nodes into maximal, convex, connected clusters. A set is convex if no node
/// outside it lies on a path between two of its members.
pub fn build_convex_clusters(
    graph: &onnx_runtime_ir::Graph,
    order: &[NodeId],
    supported: &[bool],
    float64: &[bool],
    compile_class: &[CompilePartitionClass],
) -> (clusters: Vec<Vec<NodeId>>)
    requires
        linked(ir_state(*graph)),
        is_listing(ir_state(*graph), order@),
        supported@.len() == order@.len(),
        float64@.len() == order@.len(),
        compile_class@.len() == order@.len(),
    ensures
        id_rows(clusters@) == convex_clusters(
            ir_state(*graph),
            order@,
            Colours { supported: supported@, float64: float64@, class: compile_class@ },
        ),
{
    let ghost state = ir_state(*graph);
    let ghost colours = Colours {
        supported: supported@,
        float64: float64@,
        class: compile_class@,
    };
    let positions: HashMap<u32, usize> = positions_of(order);
    let succ: Vec<Vec<usize>> = successor_rows(graph, order, &positions);
    let pred: Vec<Vec<usize>> = predecessor_rows(graph, order, &positions);
    let ghost adj = rows(succ@);
    proof {
        lemma_rows(state, order@);
        assert(succ@.len() == rows(succ@).len());
        assert(pred@.len() == rows(pred@).len());
        assert forall|v: int| 0 <= v < succ@.len() implies #[trigger] in_degree(rows(succ@), v)
            <= usize::MAX by {
            lemma_degree_bound(state, order@, v);
            assert(succ@.len() == succ.len());
        }
        assert(lengths(pred@) =~= row_lengths(backward_rows(state, order@))) by {
            assert forall|v: int| 0 <= v < pred@.len() implies lengths(pred@)[v] == row_lengths(
                backward_rows(state, order@),
            )[v] by {
                assert(rows(pred@)[v] == ints(pred@[v]@));
            }
        }
    }
    let indices: Vec<Vec<usize>> = cluster_edges(
        supported,
        float64,
        compile_class,
        succ.as_slice(),
        pred.as_slice(),
    );
    let ghost groups = edge_clusters(colours, adj, lengths(pred@));
    proof {
        law_clusters_partition_supported(colours, adj, lengths(pred@));
    }
    let mut clusters: Vec<Vec<u32>> = Vec::new();
    while clusters.len() < indices.len()
        invariant
            clusters@.len() <= indices@.len(),
            rows(indices@) == groups,
            forall|c: int, v: int| #[trigger]
                in_cluster(groups, c, v) ==> 0 <= v < order@.len(),
            forall|c: int|
                0 <= c < clusters@.len() ==> (#[trigger] clusters@[c])@ == cluster_nodes(
                    order@,
                    groups,
                )[c],
        decreases indices@.len() - clusters@.len(),
    {
        let at: usize = clusters.len();
        let mut cluster: Vec<u32> = Vec::new();
        while cluster.len() < indices[at].len()
            invariant
                at < indices@.len(),
                cluster@.len() <= indices@[at as int]@.len(),
                rows(indices@) == groups,
                forall|c: int, v: int| #[trigger]
                    in_cluster(groups, c, v) ==> 0 <= v < order@.len(),
                forall|i: int|
                    0 <= i < cluster@.len() ==> #[trigger] cluster@[i]
                        == order@[groups[at as int][i]],
            decreases indices@[at as int]@.len() - cluster@.len(),
        {
            let position: usize = indices[at][cluster.len()];
            proof {
                assert(rows(indices@)[at as int] == ints(indices@[at as int]@));
                assert(groups[at as int][cluster@.len() as int] == position);
                assert(in_cluster(groups, at as int, position as int));
            }
            cluster.push(order[position]);
        }
        proof {
            assert(rows(indices@)[at as int] == ints(indices@[at as int]@));
            assert(cluster@ =~= cluster_nodes(order@, groups)[at as int]);
        }
        clusters.push(cluster);
    }
    proof {
        assert(indices@.len() == rows(indices@).len());
        assert(id_rows(clusters@) =~= cluster_nodes(order@, groups));
    }
    clusters
}

/// What boundary inference looks at in a graph.
pub open spec fn skeleton_of(state: IrState, order: Seq<u32>) -> Skeleton {
    Skeleton {
        op_types: Seq::new(order.len(), |i: int| state.nodes[order[i] as int].op_type),
        successors: forward_rows(state, order),
        predecessors: backward_rows(state, order),
    }
}

/// Every two neighbouring anchors have a boundary between them.
pub open spec fn layers_found(skeleton: Skeleton, anchors: Seq<int>) -> bool {
    anchors.len() >= 2 && forall|i: int|
        0 <= i < anchors.len() - 1 ==> skeleton.has_boundary(
            #[trigger] anchors[i],
            anchors[i + 1],
        )
}

/// `value` is the first output of the boundary node between two neighbouring anchors.
pub open spec fn ends_layer(
    state: IrState,
    order: Seq<u32>,
    anchors: Seq<int>,
    value: u32,
) -> bool {
    exists|i: int, index: int|
        0 <= i < anchors.len() - 1 && 0 <= index < order.len() && #[trigger] skeleton_of(
            state,
            order,
        ).is_boundary(#[trigger] anchors[i], anchors[i + 1], index)
            && state.nodes[order[index] as int].outputs.len() > 0
            && state.nodes[order[index] as int].outputs[0] == value
}

/// The first outputs of the inferred boundary nodes, if every layer has one.
pub open spec fn inferred_boundaries(
    state: IrState,
    order: Seq<u32>,
    attention: Seq<u32>,
) -> Set<u32> {
    let anchors = located(id_ints(attention), order);
    if layers_found(skeleton_of(state, order), anchors) {
        Set::new(|value: u32| ends_layer(state, order, anchors, value))
    } else {
        Set::empty()
    }
}

/// Infers where decoder layers end from the attention nodes and the residual additions between
/// them.
pub fn infer_layer_boundary_values(
    graph: &onnx_runtime_ir::Graph,
    order: &[NodeId],
    attention_anchors: &[NodeId],
) -> (values: HashSet<ValueId>)
    requires
        linked(ir_state(*graph)),
        is_listing(ir_state(*graph), order@),
    ensures
        values@ == inferred_boundaries(ir_state(*graph), order@, attention_anchors@),
{
    let ghost state = ir_state(*graph);
    let positions: HashMap<u32, usize> = positions_of(order);
    let mut anchors: Vec<usize> = Vec::new();
    let mut at: usize = 0;
    let ghost ids = id_ints(attention_anchors@);
    proof {
        assert(ids.take(0) =~= Seq::<int>::empty());
        assert(ints(anchors@) =~= located(ids.take(0), order@));
    }
    while at < attention_anchors.len()
        invariant
            at <= attention_anchors@.len(),
            ids == id_ints(attention_anchors@),
            forall|x: u32| #[trigger] positions@.contains_key(x) <==> order@.contains(x),
            forall|x: u32| #[trigger]
                positions@.contains_key(x) ==> positions@[x] == order@.index_of(x),
            ints(anchors@) == located(ids.take(at as int), order@),
            forall|i: int| 0 <= i < anchors@.len() ==> #[trigger] anchors@[i] < order@.len(),
        decreases attention_anchors@.len() - at,
    {
        let id: u32 = attention_anchors[at];
        let ghost before = anchors@;
        proof {
            assert(ids.take(at + 1).drop_last() =~= ids.take(at as int));
            assert(ids.take(at + 1).last() == id);
        }
        match positions.get(&id) {
            Some(position) => {
                proof {
                    let i = order@.index_of(id);
                    assert(order@.contains(id));
                    assert(order@[i] == id);
                }
                anchors.push(*position);
                proof {
                    assert(ints(anchors@) =~= ints(before).push(order@.index_of(id)));
                }
            },
            None => {},
        }
        at = at + 1;
    }
    proof {
        assert(ids.take(at as int) =~= ids);
    }
    let successors: Vec<Vec<usize>> = successor_rows(graph, order, &positions);
    let predecessors: Vec<Vec<usize>> = predecessor_rows(graph, order, &positions);
    let mut op_types: Vec<String> = Vec::new();
    let mut first_outputs: Vec<Option<u32>> = Vec::new();
    while op_types.len() < order.len()
        invariant
            state == ir_state(*graph),
            linked(state),
            is_listing(state, order@),
            op_types@.len() <= order@.len(),
            first_outputs@.len() == op_types@.len(),
            forall|i: int|
                0 <= i < op_types@.len() ==> (#[trigger] op_types@[i])@
                    == state.nodes[order@[i] as int].op_type,
            forall|i: int|
                0 <= i < op_types@.len() ==> #[trigger] first_outputs@[i] == (if
                state.nodes[order@[i] as int].outputs.len() > 0 {
                    Some(state.nodes[order@[i] as int].outputs[0])
                } else {
                    None
                }),
        decreases order@.len() - op_types@.len(),
    {
        let node: u32 = order[op_types.len()];
        let parts: (String, Vec<u32>) = node_parts(graph, node);
        let first: Option<u32> = if parts.1.len() > 0 {
            Some(parts.1[0])
        } else {
            None
        };
        op_types.push(parts.0);
        first_outputs.push(first);
    }
    let ghost skeleton = skeleton_of(state, order@);
    let ghost where_anchors = ints(anchors@);
    proof {
        lemma_rows(state, order@);
        assert(texts(op_types@) =~= skeleton.op_types);
        assert(rows(successors@).len() == successors@.len());
        assert(rows(predecessors@).len() == predecessors@.len());
    }
    let mut values: HashSet<u32> = HashSet::new();
    match infer_boundary_indices(
        op_types.as_slice(),
        successors.as_slice(),
        predecessors.as_slice(),
        anchors.as_slice(),
    ) {
        Some(indices) => {
            proof {
                assert(layers_found(skeleton, where_anchors)) by {
                    assert forall|i: int| 0 <= i < where_anchors.len() - 1 implies skeleton.has_boundary(
                        #[trigger] where_anchors[i],
                        where_anchors[i + 1],
                    ) by {
                        let index = indices@[i] as int;
                        assert(skeleton.is_boundary(
                            anchors@[i] as int,
                            anchors@[i + 1] as int,
                            index,
                        ));
                    }
                }
            }
            let mut next: usize = 0;
            while next < indices.len()
                invariant
                    next <= indices@.len(),
                    where_anchors == ints(anchors@),
                    indices@.len() == anchors@.len() - 1,
                    first_outputs@.len() == order@.len(),
                    skeleton == skeleton_of(state, order@),
                    forall|i: int|
                        0 <= i < indices@.len() ==> skeleton.is_boundary(
                            anchors@[i] as int,
                            anchors@[i + 1] as int,
                            (#[trigger] indices@[i]) as int,
                        ),
                    forall|i: int| 0 <= i < anchors@.len() ==> #[trigger] anchors@[i] < order@.len(),
                    forall|i: int|
                        0 <= i < order@.len() ==> #[trigger] first_outputs@[i] == (if
                        state.nodes[order@[i] as int].outputs.len() > 0 {
                            Some(state.nodes[order@[i] as int].outputs[0])
                        } else {
                            None
                        }),
                    forall|value: u32| #[trigger]
                        values@.contains(value) <==> exists|i: int|
                            0 <= i < next && first_outputs@[(#[trigger] indices@[i]) as int]
                                == Some(value),
                decreases indices@.len() - next,
            {
                let index: usize = indices[next];
                proof {
                    assert(skeleton.is_boundary(
                        anchors@[next as int] as int,
                        anchors@[next + 1] as int,
                        index as int,
                    ));
                }
                let ghost before = values@;
                match first_outputs[index] {
                    Some(value) => {
                        values.insert(value);
                    },
                    None => {},
                }
                proof {
                    assert forall|value: u32| #[trigger] values@.contains(value) <==> exists|i: int|
                        0 <= i < next + 1 && first_outputs@[(#[trigger] indices@[i]) as int] == Some(
                            value,
                        ) by {
                        if before.contains(value) {
                            let i = choose|i: int|
                                0 <= i < next && first_outputs@[(#[trigger] indices@[i]) as int]
                                    == Some(value);
                            assert(first_outputs@[indices@[i] as int] == Some(value));
                        }
                        if first_outputs@[index as int] == Some(value) {
                            assert(first_outputs@[indices@[next as int] as int] == Some(value));
                        }
                    }
                }
                next = next + 1;
            }
            proof {
                let wanted = inferred_boundaries(state, order@, attention_anchors@);
                assert forall|value: u32| values@.contains(value) <==> wanted.contains(value) by {
                    if values@.contains(value) {
                        let i = choose|i: int|
                            0 <= i < next && first_outputs@[(#[trigger] indices@[i]) as int]
                                == Some(value);
                        let index = indices@[i] as int;
                        assert(skeleton.is_boundary(where_anchors[i], where_anchors[i + 1], index));
                        assert(ends_layer(state, order@, where_anchors, value));
                    }
                    if ends_layer(state, order@, where_anchors, value) {
                        let (i, index) = choose|i: int, index: int|
                            0 <= i < where_anchors.len() - 1 && 0 <= index < order@.len()
                                && #[trigger] skeleton.is_boundary(
                                #[trigger] where_anchors[i],
                                where_anchors[i + 1],
                                index,
                            ) && state.nodes[order@[index] as int].outputs.len() > 0
                                && state.nodes[order@[index] as int].outputs[0] == value;
                        let found = indices@[i] as int;
                        assert(skeleton.is_boundary(
                            anchors@[i] as int,
                            anchors@[i + 1] as int,
                            found,
                        ));
                        assert(found == index);
                        assert(first_outputs@[indices@[i] as int] == Some(value));
                    }
                }
                assert(values@ =~= wanted);
            }
        },
        None => {
            proof {
                if where_anchors.len() >= 2 {
                    let i = choose|i: int|
                        0 <= i < anchors@.len() - 1 && !skeleton.has_boundary(
                            (#[trigger] anchors@[i]) as int,
                            anchors@[i + 1] as int,
                        );
                    assert(!skeleton.has_boundary(where_anchors[i], where_anchors[i + 1]));
                }
                assert(values@ =~= inferred_boundaries(state, order@, attention_anchors@));
            }
        },
    }
    values
}

/// A cluster while it is being cut: the finished parts, the open one, and its number of layer ends.
#[verifier::ext_equal]
pub struct Cut {
    pub parts: Seq<Seq<u32>>,
    pub open: Seq<u32>,
    pub layers: nat,
}

/// Some output of `node` ends a layer.
pub open spec fn node_ends_layer(state: IrState, boundaries: Set<u32>, node: u32) -> bool {
    exists|i: int|
        0 <= i < state.nodes[node as int].outputs.len() && boundaries.contains(
            #[trigger] state.nodes[node as int].outputs[i],
        )
}

/// Cuts after every `span`-th layer end.
pub open spec fn cut(
    state: IrState,
    boundaries: Set<u32>,
    span: nat,
    cluster: Seq<u32>,
) -> Cut
    decreases cluster.len(),
{
    if cluster.len() == 0 {
        Cut { parts: Seq::empty(), open: Seq::empty(), layers: 0 }
    } else {
        let before = cut(state, boundaries, span, cluster.drop_last());
        let open = before.open.push(cluster.last());
        if !node_ends_layer(state, boundaries, cluster.last()) {
            Cut { parts: before.parts, open, layers: before.layers }
        } else if before.layers + 1 == span {
            Cut { parts: before.parts.push(open), open: Seq::empty(), layers: 0 }
        } else {
            Cut { parts: before.parts, open, layers: before.layers + 1 }
        }
    }
}

/// The parts of one cluster.
pub open spec fn cut_parts(
    state: IrState,
    boundaries: Set<u32>,
    span: nat,
    cluster: Seq<u32>,
) -> Seq<Seq<u32>> {
    let done = cut(state, boundaries, span, cluster);
    if done.open.len() > 0 {
        done.parts.push(done.open)
    } else {
        done.parts
    }
}

/// The parts of all clusters, in order.
pub open spec fn split_clusters(
    state: IrState,
    boundaries: Set<u32>,
    span: nat,
    clusters: Seq<Seq<u32>>,
) -> Seq<Seq<u32>>
    decreases clusters.len(),
{
    if clusters.len() == 0 {
        Seq::empty()
    } else {
        split_clusters(state, boundaries, span, clusters.drop_last()) + cut_parts(
            state,
            boundaries,
            span,
            clusters.last(),
        )
    }
}

fn ends_a_layer(
    graph: &onnx_runtime_ir::Graph,
    boundaries: &HashSet<ValueId>,
    node: u32,
) -> (ends: bool)
    requires
        ir_state(*graph).compact,
        node < ir_state(*graph).nodes.len(),
    ensures
        ends == node_ends_layer(ir_state(*graph), boundaries@, node),
{
    let parts: (String, Vec<u32>) = node_parts(graph, node);
    let outputs: Vec<u32> = parts.1;
    let ghost state = ir_state(*graph);
    let mut at: usize = 0;
    while at < outputs.len()
        invariant
            at <= outputs@.len(),
            state == ir_state(*graph),
            outputs@ == state.nodes[node as int].outputs,
            forall|i: int| 0 <= i < at ==> !boundaries@.contains(#[trigger] outputs@[i]),
        decreases outputs@.len() - at,
    {
        if boundaries.contains(&outputs[at]) {
            return true;
        }
        at = at + 1;
    }
    false
}

/// Cuts every cluster after each `layers_per_partition` layer ends.
pub fn split_annotated_layer_clusters(
    graph: &onnx_runtime_ir::Graph,
    clusters: &Vec<Vec<NodeId>>,
    layer_boundary_outputs: &HashSet<ValueId>,
    layers_per_partition: usize,
) -> (split: Vec<Vec<NodeId>>)
    requires
        ir_state(*graph).compact,
        forall|c: int, i: int|
            0 <= c < clusters@.len() && 0 <= i < clusters@[c]@.len()
                ==> #[trigger] clusters@[c]@[i] < ir_state(*graph).nodes.len(),
    ensures
        id_rows(split@) == split_clusters(
            ir_state(*graph),
            layer_boundary_outputs@,
            layers_per_partition as nat,
            id_rows(clusters@),
        ),
{
    let ghost state = ir_state(*graph);
    let ghost boundaries = layer_boundary_outputs@;
    let ghost span = layers_per_partition as nat;
    let ghost all = id_rows(clusters@);
    let mut split: Vec<Vec<u32>> = Vec::new();
    let mut at: usize = 0;
    proof {
        assert(all.take(0) =~= Seq::<Seq<u32>>::empty());
        assert(id_rows(split@) =~= split_clusters(state, boundaries, span, all.take(0)));
    }
    while at < clusters.len()
        invariant
            at <= clusters@.len(),
            state == ir_state(*graph),
            state.compact,
            boundaries == layer_boundary_outputs@,
            span == layers_per_partition,
            all == id_rows(clusters@),
            forall|c: int, i: int|
                0 <= c < clusters@.len() && 0 <= i < clusters@[c]@.len()
                    ==> #[trigger] clusters@[c]@[i] < state.nodes.len(),
            id_rows(split@) == split_clusters(state, boundaries, span, all.take(at as int)),
        decreases clusters@.len() - at,
    {
        let ghost cluster = all[at as int];
        let ghost opening = id_rows(split@);
        let mut part: Vec<u32> = Vec::new();
        let mut layers: usize = 0;
        let mut node: usize = 0;
        proof {
            assert(cluster.take(0) =~= Seq::<u32>::empty());
            assert(id_rows(split@) =~= opening + cut(
                state,
                boundaries,
                span,
                cluster.take(0),
            ).parts);
        }
        while node < clusters[at].len()
            invariant
                at < clusters@.len(),
                node <= cluster.len(),
                cluster == clusters@[at as int]@,
                state == ir_state(*graph),
                state.compact,
                boundaries == layer_boundary_outputs@,
                span == layers_per_partition,
                forall|c: int, i: int|
                    0 <= c < clusters@.len() && 0 <= i < clusters@[c]@.len()
                        ==> #[trigger] clusters@[c]@[i] < state.nodes.len(),
                ({
                    let so_far = cut(state, boundaries, span, cluster.take(node as int));
                    &&& id_rows(split@) == opening + so_far.parts
                    &&& part@ == so_far.open
                    &&& layers == so_far.layers
                    &&& layers <= node
                }),
            decreases cluster.len() - node,
        {
            let id: u32 = clusters[at][node];
            let ghost before = id_rows(split@);
            let ghost earlier = cut(state, boundaries, span, cluster.take(node as int));
            proof {
                assert(cluster.take(node + 1).drop_last() =~= cluster.take(node as int));
                assert(cluster.take(node + 1).last() == id);
            }
            part.push(id);
            if ends_a_layer(graph, layer_boundary_outputs, id) {
                layers = layers + 1;
                if layers == layers_per_partition {
                    split.push(part);
                    proof {
                        assert(id_rows(split@) =~= before.push(earlier.open.push(id)));
                        assert(id_rows(split@) =~= opening + earlier.parts.push(
                            earlier.open.push(id),
                        ));
                    }
                    part = Vec::new();
                    layers = 0;
                    proof {
                        assert(part@ =~= Seq::<u32>::empty());
                    }
                }
            }
            node = node + 1;
        }
        proof {
            assert(cluster.take(node as int) =~= cluster);
            assert(all.take(at + 1).drop_last() =~= all.take(at as int));
            assert(all.take(at + 1).last() == cluster);
        }
        let ghost done = cut(state, boundaries, span, cluster);
        let ghost before = id_rows(split@);
        if part.len() > 0 {
            split.push(part);
            proof {
                assert(id_rows(split@) =~= before.push(done.open));
                assert(id_rows(split@) =~= opening + done.parts.push(done.open));
            }
        }
        at = at + 1;
    }
    proof {
        assert(all.take(at as int) =~= all);
    }
    split
}

/// How many of `nodes` end a layer.
pub open spec fn layer_ends(state: IrState, boundaries: Set<u32>, nodes: Seq<u32>) -> nat
    decreases nodes.len(),
{
    if nodes.len() == 0 {
        0
    } else {
        layer_ends(state, boundaries, nodes.drop_last()) + (if node_ends_layer(
            state,
            boundaries,
            nodes.last(),
        ) {
            1nat
        } else {
            0nat
        })
    }
}

proof fn lemma_cut(state: IrState, boundaries: Set<u32>, span: nat, cluster: Seq<u32>)
    requires
        span > 0,
    ensures
        ({
            let done = cut(state, boundaries, span, cluster);
            &&& done.parts.flatten() + done.open == cluster
            &&& layer_ends(state, boundaries, done.open) == done.layers
            &&& done.layers < span
            &&& forall|i: int|
                0 <= i < done.parts.len() ==> {
                    &&& (#[trigger] done.parts[i]).len() > 0
                    &&& layer_ends(state, boundaries, done.parts[i]) == span
                    &&& node_ends_layer(state, boundaries, done.parts[i].last())
                }
        }),
    decreases cluster.len(),
{
    let done = cut(state, boundaries, span, cluster);
    if cluster.len() == 0 {
        assert(done.parts.flatten() + done.open =~= cluster);
    } else {
        let front = cluster.drop_last();
        lemma_cut(state, boundaries, span, front);
        let before = cut(state, boundaries, span, front);
        let open = before.open.push(cluster.last());
        assert(open.drop_last() =~= before.open);
        assert(cluster =~= front.push(cluster.last()));
        if node_ends_layer(state, boundaries, cluster.last()) && before.layers + 1 == span {
            before.parts.lemma_flatten_push(open);
            assert(before.parts.push(open).flatten() =~= before.parts.flatten() + open);
            assert(done.parts.flatten() + done.open =~= cluster);
        } else {
            assert(done.parts.flatten() + done.open =~= cluster);
        }
    }
}

/// Splitting a cluster keeps its nodes in order; no part is empty or holds more than `span` layer
/// ends, and every part but the last holds exactly `span` and ends with one.
pub proof fn law_split_keeps_nodes(
    state: IrState,
    boundaries: Set<u32>,
    span: nat,
    cluster: Seq<u32>,
)
    requires
        span > 0,
    ensures
        cut_parts(state, boundaries, span, cluster).flatten() == cluster,
        forall|i: int|
            0 <= i < cut_parts(state, boundaries, span, cluster).len() ==> (#[trigger] cut_parts(
                state,
                boundaries,
                span,
                cluster,
            )[i]).len() > 0 && layer_ends(
                state,
                boundaries,
                cut_parts(state, boundaries, span, cluster)[i],
            ) <= span,
        forall|i: int|
            0 <= i < cut_parts(state, boundaries, span, cluster).len() - 1 ==> layer_ends(
                state,
                boundaries,
                #[trigger] cut_parts(state, boundaries, span, cluster)[i],
            ) == span && node_ends_layer(
                state,
                boundaries,
                cut_parts(state, boundaries, span, cluster)[i].last(),
            ),
{
    lemma_cut(state, boundaries, span, cluster);
    let done = cut(state, boundaries, span, cluster);
    if done.open.len() > 0 {
        done.parts.lemma_flatten_push(done.open);
        assert(done.parts.push(done.open).flatten() =~= done.parts.flatten() + done.open);
    } else {
        assert(done.parts.flatten() + done.open =~= done.parts.flatten());
    }
}

} // verus!
